use grep_app_cli::render::{extension_of, map_extension};
use grep_app_cli::{
    highlight_matches, match_byte_ranges, needs_gap, next_boundary, parse, render_line,
    styled_line, Palette, Printer, Rgb, Span,
};
use syntect::highlighting::ThemeSet;
use syntect::parsing::SyntaxSet;

fn printer() -> Printer {
    let ss = SyntaxSet::load_defaults_newlines();
    let theme = ThemeSet::load_defaults().themes["base16-ocean.dark"].clone();
    Printer::new(ss, theme, false)
}

/// The bytes of `s` with every escape sequence (ESC up to and including the
/// final `m`) removed: what the terminal shows.
fn visible(s: &[u8]) -> Vec<u8> {
    let mut out = Vec::new();
    let mut i = 0;
    while i < s.len() {
        if s[i] == 0x1b {
            while i < s.len() && s[i] != b'm' {
                i += 1;
            }
            i += 1;
        } else {
            out.push(s[i]);
            i += 1;
        }
    }
    out
}

fn contains(haystack: &[u8], needle: &[u8]) -> bool {
    !needle.is_empty()
        && haystack.windows(needle.len()).any(|w| w == needle)
}

#[test]
fn composite_without_matches_is_plain_styling() {
    let spans = vec![
        Span { fg: Rgb { r: 1, g: 2, b: 3 }, text: b"let x".to_vec() },
        Span { fg: Rgb { r: 9, g: 9, b: 9 }, text: b" = 1;".to_vec() },
    ];
    let plain = styled_line(&spans);
    let composited = highlight_matches(&spans, &vec![], Rgb { r: 120, g: 70, b: 10 });
    assert_eq!(plain, composited);
}

#[test]
fn composite_preserves_visible_bytes() {
    let spans = vec![
        Span { fg: Rgb { r: 1, g: 2, b: 3 }, text: b"abc".to_vec() },
        Span { fg: Rgb { r: 4, g: 5, b: 6 }, text: b"abc".to_vec() },
    ];
    let ms = match_byte_ranges(b"abcabc", b"cab", true);
    assert_eq!(ms, vec![(2, 5)]);
    let out = highlight_matches(&spans, &ms, Rgb { r: 120, g: 70, b: 10 });
    assert_eq!(visible(&out), b"abcabc".to_vec());
}

#[test]
fn composite_overlays_background_on_match() {
    let spans = vec![Span { fg: Rgb { r: 1, g: 2, b: 3 }, text: b"abcabc".to_vec() }];
    let bg = Rgb { r: 120, g: 70, b: 10 };
    let ms = vec![(0usize, 3usize)];
    let out = highlight_matches(&spans, &ms, bg);
    // the background escape for rgb(120, 70, 10)
    assert!(contains(&out, b"\x1b[48;2;120;70;10m"));
    // bold inside the match
    assert!(contains(&out, b"\x1b[1m"));
    assert_eq!(visible(&out), b"abcabc".to_vec());
}

#[test]
fn next_boundary_outside_match_stops_at_next_start() {
    let ms = vec![(2usize, 4usize)];
    assert_eq!(next_boundary(&ms, 0, false, 0, 6), 2);
}

#[test]
fn next_boundary_inside_match_stops_at_match_end() {
    let ms = vec![(2usize, 4usize)];
    assert_eq!(next_boundary(&ms, 2, true, 0, 6), 4);
}

#[test]
fn next_boundary_caps_at_span_length() {
    let ms = vec![(2usize, 40usize)];
    assert_eq!(next_boundary(&ms, 2, true, 0, 6), 6);
    assert_eq!(next_boundary(&[], 1, false, 0, 6), 6);
}

#[test]
fn gap_rule_matches_the_line_ranges() {
    // snippet at line 5 with 3 lines ends at line 7; next at 20 leaves a gap
    assert!(needs_gap(5, 3, 20));
    // next at 8 is contiguous: no gap
    assert!(!needs_gap(5, 3, 8));
    // next at 9 skips line 8: gap
    assert!(needs_gap(5, 3, 9));
    // an empty previous snippet counts its start line alone
    assert!(!needs_gap(5, 0, 6));
    assert!(needs_gap(5, 0, 7));
}

#[test]
fn gap_marker_printed_between_non_contiguous_snippets() {
    let input = b"Repository: foo/bar\nPath: a.rs\n\
--- Snippet 1 (Line 5) ---\nl5\nl6\nl7\n\
--- Snippet 2 (Line 20) ---\nl20\n";
    let results = parse(input);
    let out = printer().print_result(&results[0], b"zzz", true);
    let ellipsis = "⋮".as_bytes();
    assert!(contains(&out, ellipsis));
}

#[test]
fn no_gap_marker_between_contiguous_snippets() {
    let input = b"Repository: foo/bar\nPath: a.rs\n\
--- Snippet 1 (Line 5) ---\nl5\nl6\nl7\n\
--- Snippet 2 (Line 8) ---\nl8\n";
    let results = parse(input);
    let out = printer().print_result(&results[0], b"zzz", true);
    let ellipsis = "⋮".as_bytes();
    assert!(!contains(&out, ellipsis));
}

#[test]
fn license_is_shown_unless_unknown() {
    let with = parse(b"Repository: a/a\nLicense: MIT\n");
    let out = printer().print_result(&with[0], b"q", true);
    assert!(contains(&out, b"MIT"));

    let without = parse(b"Repository: a/a\nLicense: Unknown\n");
    let out2 = printer().print_result(&without[0], b"q", true);
    assert!(!contains(&out2, b"Unknown"));
}

#[test]
fn no_results_message() {
    let out = printer().print_results(&vec![], b"q", true);
    assert_eq!(visible(&out), b"No results found.\n".to_vec());
}

#[test]
fn summary_counts_results() {
    let results = parse(b"Repository: a/a\nRepository: b/b\n");
    let out = printer().print_results(&results, b"q", true);
    assert!(contains(&visible(&out), b"Found 2 result(s):"));
}

#[test]
fn separator_between_results_but_not_after_last() {
    let results = parse(b"Repository: a/a\nRepository: b/b\n");
    let out = printer().print_results(&results, b"q", true);
    let bar = "─".as_bytes();
    let v = out
        .windows(bar.len())
        .filter(|w| *w == bar)
        .count();
    assert_eq!(v, 60);
}

#[test]
fn rendered_line_keeps_text_and_line_number() {
    let input = b"Repository: foo/bar\nPath: a.js\n--- Snippet 1 (Line 10) ---\nconst x = 1;\n";
    let results = parse(input);
    let out = printer().print_result(&results[0], b"const", true);
    let vis = visible(&out);
    assert!(contains(&vis, b"const x = 1;"));
    assert!(contains(&vis, b"   10 "));
    assert!(contains(&vis, b"foo/bar"));
    assert!(contains(&vis, b"File: "));
    assert!(contains(&vis, b"a.js"));
}

#[test]
fn render_line_gutter_and_newline() {
    let spans = vec![Span { fg: Rgb { r: 0, g: 0, b: 0 }, text: b"hi".to_vec() }];
    let out = render_line(b"hi", &spans, 7, b"", true, Rgb { r: 1, g: 1, b: 1 });
    let vis = visible(&out);
    assert_eq!(vis, b"      7 hi\n".to_vec());
}

#[test]
fn palettes_differ() {
    assert_ne!(Palette::dark(), Palette::light());
    assert_eq!(Palette::dark().match_bg, Rgb { r: 120, g: 70, b: 10 });
}

#[test]
fn unknown_extension_still_renders_the_text() {
    let input = b"Repository: a/a\nPath: weird.zzz9\n--- Snippet 1 (Line 1) ---\nsome text\n";
    let results = parse(input);
    let out = printer().print_result(&results[0], b"some", true);
    assert!(contains(&visible(&out), b"some text"));
}

#[test]
fn extension_is_taken_from_the_last_component() {
    assert_eq!(extension_of(b"src/a.tar.gz"), b"gz".to_vec());
    assert_eq!(extension_of(b"a.js"), b"js".to_vec());
    assert_eq!(extension_of(b"noext"), b"".to_vec());
    assert_eq!(extension_of(b".bashrc"), b"".to_vec());
    assert_eq!(extension_of(b"dir.d/noext"), b"".to_vec());
    assert_eq!(extension_of(b"trailing."), b"".to_vec());
}

#[test]
fn related_extensions_share_a_grammar_key() {
    assert_eq!(map_extension(b"ts".to_vec()), b"js".to_vec());
    assert_eq!(map_extension(b"tsx".to_vec()), b"js".to_vec());
    assert_eq!(map_extension(b"kt".to_vec()), b"java".to_vec());
    assert_eq!(map_extension(b"toml".to_vec()), b"yaml".to_vec());
    assert_eq!(map_extension(b"vue".to_vec()), b"html".to_vec());
    assert_eq!(map_extension(b"rs".to_vec()), b"rs".to_vec());
}

#[test]
fn header_only_for_result_without_snippets() {
    let results = parse(b"Repository: a/a\nPath: p\nURL: u\nLicense: MIT\n");
    let out = printer().print_result(&results[0], b"q", true);
    let vis = visible(&out);
    let text = String::from_utf8_lossy(&vis);
    assert!(text.starts_with("\u{25cf} a/a MIT\n"));
    assert!(text.contains("  u\n\n        File: p\n"));
}
