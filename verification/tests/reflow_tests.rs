use reflow::model::Ratio;
use reflow::reflow::{ReflowOptions, calculate_average_line_length, is_natural_paragraph_break, reflow_text};

#[test]
fn test_reflow_text() {
    let input = "This is a test of the reflow text function. This text should be \
        broken into multiple lines if the word limit is set to a small \
        value. This line is intentionally short.";

    let expected_output_no_options = "This is a test of the reflow text function. This text should be broken into multiple lines if the word limit is set to a small value. \
        This line is intentionally short.";

    let expected_output_with_options = ["This is", "a test of", "the reflow", "text", "function.", "This text", "should", "be broken", "into", "multiple", "lines if", "the word", "limit is", "set to", "a small", "value.", "This", "line is", "intentiona", "lly short."];

    // Test with no options
    let output = reflow_text(input, None);
    assert_eq!(output, expected_output_no_options);

    // Test with options
    let options = ReflowOptions {
        threshold_ratio: Ratio { num: 9, den: 10 },
        para_chars_limit: Some(10),
    };
    let output = reflow_text(input, Some(options));
    let output_lines: Vec<&str> = output.lines().collect();
    assert_eq!(output_lines, expected_output_with_options)
}

#[test]
fn empty_input_gives_empty_output() {
    assert_eq!(reflow_text("", None), "");
}

#[test]
fn multi_line_input_merges_into_one_paragraph() {
    let input = "This is a test of the reflow text function. This text should be\nbroken into multiple lines if the word limit is set to a small\nvalue. This line is intentionally short.";
    let expected = "This is a test of the reflow text function. This text should be broken into multiple lines if the word limit is set to a small value. This line is intentionally short.";
    assert_eq!(reflow_text(input, None), expected);
}

#[test]
fn small_limit_bounds_every_output_line() {
    let input = "This is a test of the reflow text function. This text should be\nbroken into multiple lines if the word limit is set to a small\nvalue. This line is intentionally short.";
    let options = ReflowOptions {
        threshold_ratio: Ratio { num: 9, den: 10 },
        para_chars_limit: Some(10),
    };
    let output = reflow_text(input, Some(options));
    for line in output.lines() {
        assert!(line.chars().count() <= 10);
    }
    let expected = ["This is", "a test of", "the reflow", "text", "function.", "This text", "should", "be broken", "into", "multiple", "lines if", "the word", "limit is", "set to", "a small", "value.", "This", "line is", "intentiona", "lly short."];
    let lines: Vec<&str> = output.lines().collect();
    assert_eq!(lines, expected);
}

#[test]
fn short_ellipsis_line_closes_the_paragraph() {
    let long = "a".repeat(40);
    let input = format!("{}\nbb…\ncc", long);
    let expected = format!("{} bb…\ncc", long);
    assert_eq!(reflow_text(&input, None), expected);
}

#[test]
fn long_ellipsis_line_does_not_close_the_paragraph() {
    let long_ellipsis = format!("{}…", "a".repeat(40));
    let input = format!("{}\n{}", long_ellipsis, "b".repeat(40));
    let expected = format!("{} {}", long_ellipsis, "b".repeat(40));
    assert_eq!(reflow_text(&input, None), expected);
}

#[test]
fn classifier_uses_visual_width_not_char_count() {
    // The middle line holds eight wide CJK characters and a fullwidth stop:
    // nine characters, but eighteen display columns. Counted by columns it
    // is not short against the baseline, so it must not close a paragraph;
    // counted by characters it would.
    let input = format!("{}\n楽楽楽楽楽楽楽楽。\nbb", "a".repeat(30));
    let expected = format!("{} 楽楽楽楽楽楽楽楽。 bb", "a".repeat(30));
    assert_eq!(reflow_text(&input, None), expected);
}

#[test]
fn no_visible_character_is_lost_or_duplicated() {
    let input = "alpha beta.\ngamma delta\nepsilon zeta.";
    let output = reflow_text(input, None);
    let squeeze = |s: &str| -> Vec<char> { s.chars().filter(|c| !c.is_whitespace()).collect() };
    assert_eq!(squeeze(&output), squeeze(input));
}

#[test]
fn blank_separator_line_is_absorbed() {
    assert_eq!(reflow_text("ab\n\ncd", None), "ab  cd");
}

#[test]
fn trailing_newline_alone_is_no_line() {
    assert_eq!(reflow_text("\n", None), "");
}

#[test]
fn rewrap_within_limit_changes_nothing() {
    let input = "one two three.\nfour five six seven eight nine ten.";
    let bounded = ReflowOptions {
        threshold_ratio: Ratio { num: 9, den: 10 },
        para_chars_limit: Some(1000),
    };
    assert_eq!(reflow_text(input, Some(bounded)), reflow_text(input, None));
}

#[test]
fn limit_exactly_at_paragraph_length_passes_through() {
    let input = "abcd efgh.";
    let options = ReflowOptions {
        threshold_ratio: Ratio { num: 9, den: 10 },
        para_chars_limit: Some(10),
    };
    assert_eq!(reflow_text(input, Some(options)), "abcd efgh.");
}

#[test]
fn default_options_are_nine_tenths_and_unbounded() {
    let d = ReflowOptions::default();
    assert_eq!(d.threshold_ratio, Ratio { num: 9, den: 10 });
    assert_eq!(d.para_chars_limit, None);
}

#[test]
fn average_line_length_is_exact_mean_of_trimmed_lengths() {
    let lines: Vec<Vec<char>> = vec![" ab ".chars().collect(), "cde".chars().collect()];
    let (total, count) = calculate_average_line_length(&lines);
    assert_eq!(total, 5);
    assert_eq!(count, 2);
}

#[test]
fn average_of_no_lines_is_zero_over_zero() {
    let lines: Vec<Vec<char>> = Vec::new();
    let (total, count) = calculate_average_line_length(&lines);
    assert_eq!(total, 0);
    assert_eq!(count, 0);
}

#[test]
fn classifier_needs_short_width_and_terminator() {
    let r = Ratio { num: 9, den: 10 };
    let short_period: Vec<char> = "xx.".chars().collect();
    assert!(is_natural_paragraph_break(&short_period, 30, 3, r));
    let short_plain: Vec<char> = "xxx".chars().collect();
    assert!(!is_natural_paragraph_break(&short_plain, 30, 3, r));
    let long_period: Vec<char> = "x".repeat(20).chars().chain(".".chars()).collect();
    assert!(!is_natural_paragraph_break(&long_period, 30, 3, r));
}

#[test]
fn classifier_never_fires_on_zero_baseline() {
    let r = Ratio { num: 9, den: 10 };
    let line: Vec<char> = "xx.".chars().collect();
    assert!(!is_natural_paragraph_break(&line, 0, 0, r));
}

#[test]
fn classifier_trims_before_judging() {
    let r = Ratio { num: 9, den: 10 };
    let padded: Vec<char> = "  xx.   ".chars().collect();
    assert!(is_natural_paragraph_break(&padded, 30, 3, r));
    let trailing_space: Vec<char> = "xx. ".chars().collect();
    assert!(is_natural_paragraph_break(&trailing_space, 30, 3, r));
}
