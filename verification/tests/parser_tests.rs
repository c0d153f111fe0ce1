use grep_app_cli::{parse, parse_start_line};

fn lines_of(snippet_lines: &[Vec<u8>]) -> Vec<String> {
    snippet_lines.iter().map(|l| String::from_utf8_lossy(l).into_owned()).collect()
}

#[test]
fn scenario_single_result() {
    let input = b"Repository: foo/bar\n\
Path: a.js\n\
URL: http://x/a.js\n\
License: MIT\n\
Snippets:\n\
--- Snippet 1 (Line 10) ---\n\
const x = 1;\n\
\n";
    let results = parse(input);
    assert_eq!(results.len(), 1);
    let r = &results[0];
    assert_eq!(r.repository, b"foo/bar".to_vec());
    assert_eq!(r.path, b"a.js".to_vec());
    assert_eq!(r.url, b"http://x/a.js".to_vec());
    assert_eq!(r.license, b"MIT".to_vec());
    assert_eq!(r.snippets.len(), 1);
    assert_eq!(r.snippets[0].start_line, 10);
    assert_eq!(lines_of(&r.snippets[0].lines), vec!["const x = 1;".to_string()]);
}

#[test]
fn no_repository_lines_yield_no_results() {
    let results = parse(b"hello\nworld\nSnippets:\n--- Snippet 9 (Line 3) ---\ncode\n");
    assert!(results.is_empty());
}

#[test]
fn empty_input_yields_no_results() {
    assert!(parse(b"").is_empty());
}

#[test]
fn result_count_equals_repository_lines() {
    let input = b"Repository: a/a\nPath: x\nRepository: b/b\nRepository: c/c\nPath: y\n";
    let results = parse(input);
    assert_eq!(results.len(), 3);
    assert_eq!(results[0].repository, b"a/a".to_vec());
    assert_eq!(results[1].repository, b"b/b".to_vec());
    assert_eq!(results[2].repository, b"c/c".to_vec());
}

#[test]
fn trailing_blank_lines_are_trimmed() {
    let input = b"Repository: a/a\n--- Snippet 1 (Line 2) ---\ncode line\n\n\n\nRepository: b/b\n";
    let results = parse(input);
    assert_eq!(results.len(), 2);
    let sn = &results[0].snippets[0];
    assert_eq!(lines_of(&sn.lines), vec!["code line".to_string()]);
    if let Some(last) = sn.lines.last() {
        assert!(!last.is_empty());
    }
}

#[test]
fn all_blank_snippet_becomes_empty() {
    let input = b"Repository: a/a\n--- Snippet 1 (Line 2) ---\n\n\n";
    let results = parse(input);
    assert_eq!(results[0].snippets.len(), 1);
    assert!(results[0].snippets[0].lines.is_empty());
}

#[test]
fn snippet_before_any_repository_is_discarded() {
    let input = b"--- Snippet 1 (Line 4) ---\norphan line\nRepository: a/a\n\
--- Snippet 2 (Line 9) ---\nkept line\n";
    let results = parse(input);
    assert_eq!(results.len(), 1);
    assert_eq!(results[0].snippets.len(), 1);
    assert_eq!(results[0].snippets[0].start_line, 9);
    assert_eq!(lines_of(&results[0].snippets[0].lines), vec!["kept line".to_string()]);
}

#[test]
fn field_lines_before_any_repository_are_dropped() {
    let results = parse(b"Path: stray\nURL: stray\nLicense: stray\n");
    assert!(results.is_empty());
}

#[test]
fn last_field_write_wins() {
    let input = b"Repository: a/a\nPath: first\nPath: second\n";
    let results = parse(input);
    assert_eq!(results[0].path, b"second".to_vec());
}

#[test]
fn snippets_header_line_is_skipped_inside_body() {
    let input = b"Repository: a/a\n--- Snippet 1 (Line 1) ---\nbody\nSnippets:\nmore\n";
    let results = parse(input);
    assert_eq!(
        lines_of(&results[0].snippets[0].lines),
        vec!["body".to_string(), "more".to_string()]
    );
}

#[test]
fn lines_outside_snippet_body_are_dropped() {
    let input = b"Repository: a/a\nstray text\n--- Snippet 1 (Line 1) ---\nkept\n";
    let results = parse(input);
    assert_eq!(results[0].snippets.len(), 1);
    assert_eq!(lines_of(&results[0].snippets[0].lines), vec!["kept".to_string()]);
}

#[test]
fn carriage_returns_are_stripped() {
    let input = b"Repository: a/a\r\nPath: p\r\n--- Snippet 1 (Line 3) ---\r\ncode\r\n";
    let results = parse(input);
    assert_eq!(results[0].repository, b"a/a".to_vec());
    assert_eq!(results[0].path, b"p".to_vec());
    assert_eq!(lines_of(&results[0].snippets[0].lines), vec!["code".to_string()]);
}

#[test]
fn start_line_parses_the_number() {
    assert_eq!(parse_start_line(b"--- Snippet 3 (Line 42) ---"), 42);
    assert_eq!(parse_start_line(b"--- Snippet 3 (Line 1) ---"), 1);
}

#[test]
fn start_line_defaults_to_one_when_absent() {
    assert_eq!(parse_start_line(b"--- Snippet 3 ---"), 1);
}

#[test]
fn start_line_defaults_to_one_when_unparseable() {
    assert_eq!(parse_start_line(b"--- Snippet 3 (Line abc) ---"), 1);
    assert_eq!(parse_start_line(b"--- Snippet 3 (Line ) ---"), 1);
    assert_eq!(parse_start_line(b"--- Snippet 3 (Line 12"), 1);
}

#[test]
fn start_line_defaults_to_one_on_overflow() {
    assert_eq!(parse_start_line(b"--- Snippet 1 (Line 99999999999999999999) ---"), 1);
}

#[test]
fn start_line_at_u64_bound() {
    assert_eq!(
        parse_start_line(b"--- Snippet 1 (Line 18446744073709551615) ---"),
        u64::MAX
    );
    assert_eq!(parse_start_line(b"--- Snippet 1 (Line 18446744073709551616) ---"), 1);
}

#[test]
fn result_without_snippet_has_empty_snippets() {
    let results = parse(b"Repository: a/a\nPath: p\n");
    assert_eq!(results.len(), 1);
    assert!(results[0].snippets.is_empty());
}
