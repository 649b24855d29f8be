//! Behavioral tests for the streaming truncation engine, driven through
//! the library's batch runner.

use trunc::engine::{run, Config, Event};
use trunc::pattern::Matcher;

/// Renders the events of a run the way the driver prints them: one line
/// of text per event, each followed by a newline.
fn render(events: &[Event]) -> String {
    let mut out = String::new();
    for e in events {
        match e {
            Event::Line { text, .. } => {
                out.push_str(text);
                out.push('\n');
            }
            Event::Marker { text } => {
                out.push_str(text);
                out.push('\n');
            }
        }
    }
    out
}

/// Runs the engine over `input` (split into lines as a line reader would)
/// with the given configuration and optional pattern.
fn trunc_run(
    input: &str,
    first: usize,
    last: usize,
    matches: usize,
    context: usize,
    width: usize,
    pattern: Option<&str>,
) -> String {
    let lines: Vec<String> = input.lines().map(|s| s.to_string()).collect();
    let matcher = match pattern {
        Some(p) => match Matcher::compile(p) {
            Ok(m) => Some(m),
            Err(e) => panic!("pattern failed to compile: {}", e.message),
        },
        None => None,
    };
    let cfg = Config {
        first_count: first,
        last_count: last,
        max_matches: matches,
        context_size: context,
        width,
    };
    render(&run(cfg, matcher, &lines))
}

/// Runs with the command-line tool's stock settings: thirty leading and
/// trailing lines, five matches, three lines of context, width a hundred.
fn trunc_default(input: &str, pattern: Option<&str>) -> String {
    trunc_run(input, 30, 30, 5, 3, 100, pattern)
}

/// Generate N lines of input: "line 1\nline 2\n..."
fn generate_lines(n: usize) -> String {
    (1..=n)
        .map(|i| format!("line {}", i))
        .collect::<Vec<_>>()
        .join("\n")
}

/// Generate N lines with a specific pattern at certain positions.
fn generate_lines_with_matches(n: usize, match_at: &[usize], pattern: &str) -> String {
    (1..=n)
        .map(|i| {
            if match_at.contains(&i) {
                format!("line {} contains {}", i, pattern)
            } else {
                format!("line {}", i)
            }
        })
        .collect::<Vec<_>>()
        .join("\n")
}

#[test]
fn short_input_passes_through_unchanged() {
    let input = generate_lines(15);
    assert_eq!(trunc_default(&input, None), format!("{}\n", input));
}

#[test]
fn exactly_60_lines_passes_through_unchanged() {
    let input = generate_lines(60);
    assert_eq!(trunc_default(&input, None), format!("{}\n", input));
}

#[test]
fn truncates_at_61_lines() {
    let input = generate_lines(61);
    let stdout = trunc_default(&input, None);
    assert!(stdout.starts_with("line 1\n"), "Should start with line 1");
    assert!(stdout.contains("line 30\n"), "Should contain line 30");
    assert!(
        stdout.contains("[... 1 lines truncated ...]"),
        "Should contain truncation marker with line count"
    );
    assert!(stdout.contains("line 32\n"), "Should contain line 32");
    assert!(stdout.ends_with("line 61\n"), "Should end with line 61");
}

#[test]
fn truncates_100_lines_default() {
    let stdout = trunc_default(&generate_lines(100), None);
    let lines: Vec<&str> = stdout.lines().collect();
    assert_eq!(lines.len(), 61, "Should output exactly 61 lines");
    assert_eq!(lines[0], "line 1");
    assert_eq!(lines[29], "line 30");
    assert_eq!(lines[30], "[... 40 lines truncated ...]");
    assert_eq!(lines[31], "line 71");
    assert_eq!(lines[60], "line 100");
}

#[test]
fn empty_input_produces_empty_output() {
    assert_eq!(trunc_default("", None), "");
}

#[test]
fn single_line_passes_through() {
    assert_eq!(trunc_default("hello world", None), "hello world\n");
}

#[test]
fn preserves_blank_lines() {
    let input = "line 1\n\nline 3\n\nline 5";
    assert_eq!(trunc_default(input, None), "line 1\n\nline 3\n\nline 5\n");
}

#[test]
fn handles_trailing_newline() {
    let input = "line 1\nline 2\nline 3\n";
    assert_eq!(trunc_default(input, None), "line 1\nline 2\nline 3\n");
}

#[test]
fn handles_no_trailing_newline() {
    let input = "line 1\nline 2\nline 3";
    assert_eq!(trunc_default(input, None), "line 1\nline 2\nline 3\n");
}

#[test]
fn custom_first_count() {
    let stdout = trunc_run(&generate_lines(100), 5, 30, 5, 3, 100, None);
    let lines: Vec<&str> = stdout.lines().collect();
    assert_eq!(lines.len(), 36);
    assert_eq!(lines[0], "line 1");
    assert_eq!(lines[4], "line 5");
    assert_eq!(lines[5], "[... 65 lines truncated ...]");
    assert_eq!(lines[6], "line 71");
}

#[test]
fn custom_last_count() {
    let stdout = trunc_run(&generate_lines(100), 30, 5, 5, 3, 100, None);
    let lines: Vec<&str> = stdout.lines().collect();
    assert_eq!(lines.len(), 36);
    assert_eq!(lines[0], "line 1");
    assert_eq!(lines[29], "line 30");
    assert_eq!(lines[30], "[... 65 lines truncated ...]");
    assert_eq!(lines[31], "line 96");
    assert_eq!(lines[35], "line 100");
}

#[test]
fn custom_first_and_last() {
    let stdout = trunc_run(&generate_lines(100), 3, 3, 5, 3, 100, None);
    let lines: Vec<&str> = stdout.lines().collect();
    assert_eq!(lines.len(), 7);
    assert_eq!(lines[0], "line 1");
    assert_eq!(lines[2], "line 3");
    assert_eq!(lines[3], "[... 94 lines truncated ...]");
    assert_eq!(lines[4], "line 98");
    assert_eq!(lines[6], "line 100");
}

#[test]
fn zero_first_lines() {
    let stdout = trunc_run(&generate_lines(100), 0, 30, 5, 3, 100, None);
    let lines: Vec<&str> = stdout.lines().collect();
    assert_eq!(lines.len(), 31);
    assert_eq!(lines[0], "[... 70 lines truncated ...]");
    assert_eq!(lines[1], "line 71");
    assert_eq!(lines[30], "line 100");
}

#[test]
fn zero_last_lines() {
    let stdout = trunc_run(&generate_lines(100), 30, 0, 5, 3, 100, None);
    let lines: Vec<&str> = stdout.lines().collect();
    assert_eq!(lines.len(), 31);
    assert_eq!(lines[0], "line 1");
    assert_eq!(lines[29], "line 30");
    assert_eq!(lines[30], "[... 70 lines truncated ...]");
}

#[test]
fn long_form_first_last() {
    let stdout = trunc_run(&generate_lines(100), 5, 5, 5, 3, 100, None);
    let lines: Vec<&str> = stdout.lines().collect();
    assert_eq!(lines.len(), 11);
}

#[test]
fn pattern_mode_shows_matches_marker() {
    let input = generate_lines_with_matches(100, &[50], "ERROR");
    let stdout = trunc_run(&input, 10, 10, 5, 3, 100, Some("ERROR"));
    assert!(
        stdout.contains("lines truncated, match 1 shown"),
        "Should contain match marker with line count. Got:\n{}",
        stdout
    );
    assert!(
        !stdout.contains("[... truncated ...]"),
        "Should not contain plain truncated marker in pattern mode"
    );
}

#[test]
fn pattern_mode_shows_matching_line() {
    let input = generate_lines_with_matches(100, &[50], "ERROR");
    let stdout = trunc_run(&input, 10, 10, 5, 3, 100, Some("ERROR"));
    assert!(
        stdout.contains("line 50 contains ERROR"),
        "Should contain the matching line"
    );
}

#[test]
fn pattern_mode_shows_context_around_match() {
    let input = generate_lines_with_matches(100, &[50], "ERROR");
    let stdout = trunc_run(&input, 10, 10, 5, 3, 100, Some("ERROR"));
    assert!(stdout.contains("line 47"), "Should contain 3 lines before match");
    assert!(stdout.contains("line 48"), "Should contain context");
    assert!(stdout.contains("line 49"), "Should contain context");
    assert!(stdout.contains("line 50 contains ERROR"), "Should contain match");
    assert!(stdout.contains("line 51"), "Should contain context");
    assert!(stdout.contains("line 52"), "Should contain context");
    assert!(stdout.contains("line 53"), "Should contain 3 lines after match");
}

#[test]
fn pattern_mode_limits_to_5_matches_by_default() {
    let match_positions: Vec<usize> = (40..=90).step_by(5).collect();
    let input = generate_lines_with_matches(200, &match_positions, "ERROR");
    let stdout = trunc_default(&input, Some("ERROR"));
    let match_count = stdout.matches("contains ERROR").count();
    assert_eq!(match_count, 5, "Should show exactly 5 matches by default");
}

#[test]
fn pattern_mode_custom_match_limit() {
    let match_positions: Vec<usize> = (40..=90).step_by(5).collect();
    let input = generate_lines_with_matches(200, &match_positions, "ERROR");
    let stdout = trunc_run(&input, 30, 30, 3, 3, 100, Some("ERROR"));
    let match_count = stdout.matches("contains ERROR").count();
    assert_eq!(match_count, 3, "Should show exactly 3 matches with -m 3");
}

#[test]
fn pattern_mode_custom_context() {
    let input = generate_lines_with_matches(100, &[50], "ERROR");
    let stdout = trunc_run(&input, 10, 10, 5, 1, 100, Some("ERROR"));
    assert!(stdout.contains("line 49"), "Should contain 1 line before match");
    assert!(stdout.contains("line 50 contains ERROR"), "Should contain match");
    assert!(stdout.contains("line 51"), "Should contain 1 line after match");
    assert!(
        !stdout.contains("line 47"),
        "Should not contain line 47 with context 1"
    );
    assert!(
        !stdout.contains("line 53"),
        "Should not contain line 53 with context 1"
    );
}

#[test]
fn pattern_mode_zero_context() {
    let input = generate_lines_with_matches(100, &[50], "ERROR");
    let stdout = trunc_run(&input, 10, 10, 5, 0, 100, Some("ERROR"));
    assert!(stdout.contains("line 50 contains ERROR"), "Should contain match");
    assert!(!stdout.contains("line 49"), "Should not contain context lines");
    assert!(!stdout.contains("line 51"), "Should not contain context lines");
}

#[test]
fn pattern_mode_no_matches_in_middle() {
    let input = generate_lines_with_matches(100, &[5, 95], "ERROR");
    let stdout = trunc_run(&input, 10, 10, 5, 3, 100, Some("ERROR"));
    assert!(
        stdout.contains("line 5 contains ERROR"),
        "Match in head should appear"
    );
    assert!(
        stdout.contains("line 95 contains ERROR"),
        "Match in tail should appear"
    );
}

#[test]
fn pattern_mode_still_shows_head_and_tail() {
    let input = generate_lines_with_matches(100, &[50], "ERROR");
    let stdout = trunc_run(&input, 10, 10, 5, 3, 100, Some("ERROR"));
    assert!(stdout.contains("line 1"), "Should contain head");
    assert!(stdout.contains("line 10"), "Should contain end of head");
    assert!(stdout.contains("line 91"), "Should contain start of tail");
    assert!(stdout.contains("line 100"), "Should contain tail");
}

#[test]
fn pattern_mode_shows_ellipsis_between_matches() {
    let input = generate_lines_with_matches(200, &[50, 80], "ERROR");
    let stdout = trunc_run(&input, 10, 10, 5, 3, 100, Some("ERROR"));
    assert!(
        stdout.contains("lines truncated, match 2 shown"),
        "Should have match 2 marker between non-contiguous matches. Got:\n{}",
        stdout
    );
}

#[test]
fn pattern_mode_no_ellipsis_between_adjacent_matches() {
    let input = generate_lines_with_matches(200, &[50, 52], "ERROR");
    let stdout = trunc_run(&input, 10, 10, 5, 3, 100, Some("ERROR"));
    let lines: Vec<&str> = stdout.lines().collect();
    let first_match_idx = lines
        .iter()
        .position(|l| l.contains("line 50 contains"))
        .expect("Output should contain match at line 50");
    let second_match_idx = lines
        .iter()
        .position(|l| l.contains("line 52 contains"))
        .expect("Output should contain match at line 52");
    let between = &lines[first_match_idx + 1..second_match_idx];
    assert!(
        !between.iter().any(|l| l.starts_with("[...")),
        "Should not have marker between adjacent matches. Between: {:?}",
        between
    );
}

#[test]
fn pattern_mode_ellipsis_between_head_and_matches() {
    let input = generate_lines_with_matches(200, &[50], "ERROR");
    let stdout = trunc_run(&input, 10, 10, 5, 3, 100, Some("ERROR"));
    let lines: Vec<&str> = stdout.lines().collect();
    let match_marker = lines
        .iter()
        .find(|l| l.contains("match 1 shown"))
        .expect("Should have match 1 marker");
    let line_10_idx = lines
        .iter()
        .position(|l| *l == "line 10")
        .expect("Output should contain 'line 10'");
    assert_eq!(
        lines[line_10_idx + 1],
        *match_marker,
        "Match marker should come right after end of head"
    );
}

#[test]
fn pattern_mode_ellipsis_between_matches_and_tail() {
    let input = generate_lines_with_matches(200, &[50], "ERROR");
    let stdout = trunc_run(&input, 10, 10, 5, 3, 100, Some("ERROR"));
    let lines: Vec<&str> = stdout.lines().collect();
    let line_53_idx = lines
        .iter()
        .position(|l| *l == "line 53")
        .expect("Output should contain 'line 53' (end of match context)");
    let line_191_idx = lines
        .iter()
        .position(|l| *l == "line 191")
        .expect("Output should contain 'line 191' (start of tail)");
    assert_eq!(
        line_191_idx - line_53_idx,
        2,
        "Should have exactly one line between match context and tail"
    );
    assert!(
        lines[line_53_idx + 1].contains("lines truncated"),
        "Line between match context and tail should show lines truncated. Got: '{}'",
        lines[line_53_idx + 1]
    );
}

#[test]
fn pattern_mode_regex_support() {
    let input = "error: something\nERROR: something\nwarning: something\nError: something";
    let stdout = trunc_default(input, Some("(?i)error"));
    assert!(stdout.contains("error: something"));
    assert!(stdout.contains("ERROR: something"));
    assert!(stdout.contains("Error: something"));
}

#[test]
fn pattern_mode_long_form_args() {
    let input = generate_lines_with_matches(100, &[50], "ERROR");
    let stdout = trunc_run(&input, 30, 30, 3, 2, 100, Some("ERROR"));
    assert!(stdout.contains("line 50 contains ERROR"));
}

#[test]
fn no_duplicate_lines_when_head_tail_overlap() {
    let stdout = trunc_default(&generate_lines(65), None);
    let lines: Vec<&str> = stdout.lines().collect();
    for i in 1..=30 {
        let count = lines
            .iter()
            .filter(|&&l| l == format!("line {}", i))
            .count();
        assert_eq!(count, 1, "line {} should appear exactly once", i);
    }
    for i in 36..=65 {
        let count = lines
            .iter()
            .filter(|&&l| l == format!("line {}", i))
            .count();
        assert_eq!(count, 1, "line {} should appear exactly once", i);
    }
}

#[test]
fn no_duplicate_lines_when_match_overlaps_head() {
    let input = generate_lines_with_matches(100, &[8], "ERROR");
    let stdout = trunc_default(&input, Some("ERROR"));
    let lines: Vec<&str> = stdout.lines().collect();
    for i in 1..=30 {
        let expected = if i == 8 {
            format!("line {} contains ERROR", i)
        } else {
            format!("line {}", i)
        };
        let count = lines.iter().filter(|&&l| l == expected).count();
        assert_eq!(count, 1, "line {} should appear exactly once", i);
    }
}

#[test]
fn no_duplicate_lines_when_match_overlaps_tail() {
    let input = generate_lines_with_matches(100, &[93], "ERROR");
    let stdout = trunc_default(&input, Some("ERROR"));
    let lines: Vec<&str> = stdout.lines().collect();
    for i in 71..=100 {
        let expected = if i == 93 {
            format!("line {} contains ERROR", i)
        } else {
            format!("line {}", i)
        };
        let count = lines.iter().filter(|&&l| l == expected).count();
        assert_eq!(count, 1, "line {} should appear exactly once", i);
    }
}

#[test]
fn no_duplicate_lines_when_matches_overlap_each_other() {
    let input = generate_lines_with_matches(100, &[50, 52], "ERROR");
    let stdout = trunc_default(&input, Some("ERROR"));
    let lines: Vec<&str> = stdout.lines().collect();
    for i in 47..=55 {
        let expected = if i == 50 || i == 52 {
            format!("line {} contains ERROR", i)
        } else {
            format!("line {}", i)
        };
        let count = lines.iter().filter(|&&l| l == expected).count();
        assert_eq!(count, 1, "line {} should appear exactly once", i);
    }
}

#[test]
fn long_lines_are_truncated() {
    let long_line = "x".repeat(1000);
    let input = format!("{}\nshort\n{}", long_line, long_line);
    let stdout = trunc_default(&input, None);
    let lines: Vec<&str> = stdout.lines().collect();
    assert!(
        lines[0].contains("[... 800 chars ...]"),
        "Long line should contain char count marker. Got: {}",
        lines[0]
    );
    assert!(
        lines[0].len() < 500,
        "Truncated line should be much shorter than 1000 chars"
    );
    assert_eq!(lines[1], "short");
}

#[test]
fn handles_binary_looking_content() {
    let input = "line 1\nline \0 2\nline 3";
    let stdout = trunc_default(input, None);
    assert_eq!(stdout, format!("{}\n", input));
}

#[test]
fn handles_unicode() {
    let input = "héllo wörld\n日本語\nемайл\n🎉🎊🎈";
    assert_eq!(trunc_default(input, None), format!("{}\n", input));
}

#[test]
fn pattern_with_special_regex_chars() {
    let input = "test [bracket]\ntest (paren)\ntest .dot\ntest *star";
    let stdout = trunc_default(input, Some(r"\[bracket\]"));
    assert!(stdout.contains("[bracket]"));
}

#[test]
fn invalid_regex_returns_error() {
    let err = match Matcher::compile("[invalid") {
        Ok(_) => panic!("invalid pattern should not compile"),
        Err(e) => e,
    };
    assert!(
        err.message.contains("regex") || err.message.contains("pattern"),
        "diagnostic should mention the pattern. Got: {}",
        err.message
    );
}

#[test]
fn short_lines_pass_through_unchanged() {
    let input = "short line\nanother short line\n";
    assert_eq!(trunc_default(input, None), input);
}

#[test]
fn line_at_200_chars_passes_through() {
    let line = "x".repeat(200);
    let input = format!("{}\n", line);
    assert_eq!(trunc_default(&input, None), input);
}

#[test]
fn line_at_201_chars_is_not_truncated() {
    let line = format!("{}y{}", "a".repeat(100), "b".repeat(100));
    assert_eq!(line.len(), 201);
    let stdout = trunc_default(&format!("{}\n", line), None);
    let output_line = stdout.lines().next().unwrap();
    assert_eq!(
        output_line.len(),
        201,
        "201-char line should pass through unchanged"
    );
    assert!(
        !output_line.contains("[..."),
        "Should not contain truncation marker"
    );
}

#[test]
fn truncated_line_shows_first_and_last_100_chars() {
    let first_100 = "A".repeat(100);
    let middle = "M".repeat(500);
    let last_100 = "Z".repeat(100);
    let line = format!("{}{}{}", first_100, middle, last_100);
    let stdout = trunc_default(&format!("{}\n", line), None);
    let output_line = stdout.lines().next().unwrap();
    assert_eq!(
        output_line.len(),
        219,
        "Truncated line should be exactly 219 chars"
    );
    assert!(
        output_line.starts_with(&first_100),
        "Should start with first 100 chars"
    );
    assert!(
        output_line.contains("[... 500 chars ...]"),
        "Should contain char count marker"
    );
    assert!(
        output_line.ends_with(&last_100),
        "Should end with last 100 chars"
    );
}

#[test]
fn custom_line_width() {
    let line = "x".repeat(100);
    let stdout = trunc_run(&format!("{}\n", line), 30, 30, 5, 3, 20, None);
    let output_line = stdout.lines().next().unwrap();
    assert_eq!(
        output_line.len(),
        58,
        "Truncated line with -w 20 should be 58 chars"
    );
}

#[test]
fn long_form_width_arg() {
    let line = "x".repeat(100);
    let stdout = trunc_run(&format!("{}\n", line), 30, 30, 5, 3, 20, None);
    let output_line = stdout.lines().next().unwrap();
    assert_eq!(
        output_line.len(),
        58,
        "Truncated line with --width 20 should be 58 chars"
    );
}

#[test]
fn zero_width_disables_line_truncation() {
    let line = "x".repeat(1000);
    let stdout = trunc_run(&format!("{}\n", line), 30, 30, 5, 3, 0, None);
    let output_line = stdout.lines().next().unwrap();
    assert_eq!(
        output_line.len(),
        1000,
        "With -w 0, lines should not be truncated"
    );
}

#[test]
fn unicode_line_truncation_counts_chars_not_bytes() {
    let first = "🎉".repeat(100);
    let middle = "x".repeat(500);
    let last = "🎊".repeat(100);
    let line = format!("{}{}{}", first, middle, last);
    let stdout = trunc_default(&format!("{}\n", line), None);
    let output_line = stdout.lines().next().unwrap();
    assert_eq!(
        output_line.chars().count(),
        219,
        "Should count chars, not bytes"
    );
    assert!(
        output_line.starts_with(&first),
        "Should preserve first 100 emoji"
    );
    assert!(
        output_line.ends_with(&last),
        "Should preserve last 100 emoji"
    );
}

#[test]
fn default_mode_max_chars() {
    let long_line = "x".repeat(10_000);
    let input = (0..100)
        .map(|_| long_line.as_str())
        .collect::<Vec<_>>()
        .join("\n");
    let stdout = trunc_default(&input, None);
    assert!(
        stdout.len() <= 13460,
        "Default mode output ({} chars) should not exceed {} chars",
        stdout.len(),
        13460
    );
}

#[test]
fn pattern_mode_max_chars() {
    let long_line = "x".repeat(10_000);
    let match_line = format!("{}ERROR{}", "y".repeat(5000), "z".repeat(5000));
    let mut lines: Vec<String> = Vec::new();
    for i in 1..=200 {
        if [50, 70, 90, 110, 130].contains(&i) {
            lines.push(match_line.clone());
        } else {
            lines.push(long_line.clone());
        }
    }
    let input = lines.join("\n");
    let stdout = trunc_default(&input, Some("ERROR"));
    assert!(
        stdout.len() <= 22320,
        "Pattern mode output ({} chars) should not exceed {} chars",
        stdout.len(),
        22320
    );
}

#[test]
fn default_mode_max_61_lines() {
    for size in [100, 500, 1000] {
        let stdout = trunc_default(&generate_lines(size), None);
        let line_count = stdout.lines().count();
        assert_eq!(
            line_count, 61,
            "Output should be exactly 61 lines for input of {} lines",
            size
        );
    }
}

#[test]
fn pattern_mode_max_lines() {
    let match_positions: Vec<usize> = vec![50, 60, 70, 80, 90];
    let input = generate_lines_with_matches(200, &match_positions, "ERROR");
    let stdout = trunc_default(&input, Some("ERROR"));
    let line_count = stdout.lines().count();
    assert!(
        line_count <= 101,
        "Pattern mode output ({} lines) should not exceed 101 lines",
        line_count
    );
}
