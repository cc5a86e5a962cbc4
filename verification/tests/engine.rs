//! End-to-end tests for the rule engine.

use copyedit_check::analysis::analyze_file_content;
use copyedit_check::pattern::{Pattern, PatternType};

fn kinds(patterns: &[Pattern]) -> Vec<(PatternType, usize)> {
    patterns.iter().map(|p| (p.pattern_type, p.line_num)).collect()
}

#[test]
fn test_empty_file() {
    let patterns = analyze_file_content("", 5);
    assert!(patterns.is_empty());
}

#[test]
fn identical_rhs_fires_on_second_line() {
    // Two assignments that compute the same normalized right-hand side.
    let patterns = analyze_file_content("a = x + y\nb = x + y", 5);
    assert_eq!(kinds(&patterns), vec![(PatternType::IdenticalRhs, 2)]);
    assert_eq!(patterns[0].content, "b = x + y");
}

#[test]
fn repeated_lhs_reports_the_prior_line() {
    // The right-hand sides differ in shape, so only the repeated target
    // fires; the record points at the earlier assignment.
    let patterns = analyze_file_content("count = 0\ncount = x + 1", 5);
    assert_eq!(kinds(&patterns), vec![(PatternType::RepeatedLhs, 1)]);
    assert_eq!(patterns[0].content, "count = 0");
}

#[test]
fn numeric_literals_collapse_so_identical_rhs_wins() {
    // `0` and `1` both normalize to the numeric sentinel, so the
    // identical-RHS rule fires first and masks the repeated LHS.
    let patterns = analyze_file_content("count = 0\ncount = 1", 5);
    assert_eq!(kinds(&patterns), vec![(PatternType::IdenticalRhs, 2)]);
}

#[test]
fn self_assignment_fires() {
    let patterns = analyze_file_content("x = x", 5);
    assert_eq!(kinds(&patterns), vec![(PatternType::SelfAssignment, 1)]);
    assert_eq!(patterns[0].content, "x = x");
}

#[test]
fn self_assignment_needs_verbatim_equality() {
    // `a` and `b` normalize alike, but self-assignment compares raw
    // tokens, so nothing fires on a single line.
    let patterns = analyze_file_content("a = b", 5);
    assert!(patterns.is_empty());
}

#[test]
fn self_assignment_coexists_with_identical_rhs() {
    let patterns = analyze_file_content("x = x\ny = x", 5);
    assert_eq!(
        kinds(&patterns),
        vec![(PatternType::SelfAssignment, 1), (PatternType::IdenticalRhs, 2)]
    );
}

#[test]
fn identical_rhs_masks_repeated_lhs() {
    let patterns = analyze_file_content("a = x + y\na = x + y", 5);
    assert_eq!(kinds(&patterns), vec![(PatternType::IdenticalRhs, 2)]);
}

#[test]
fn comment_tail_is_stripped_before_comparison() {
    let patterns = analyze_file_content("a = x + y\nb = x + y  # note", 5);
    assert_eq!(kinds(&patterns), vec![(PatternType::IdenticalRhs, 2)]);
    assert_eq!(patterns[0].content, "b = x + y  # note");
}

#[test]
fn window_clips_older_lines() {
    // The middle line differs from both neighbours in shape, so with a
    // window of one nothing is in reach...
    let text = "a = x + y\nb.c = p * q\nc = x + y";
    let patterns = analyze_file_content(text, 1);
    assert!(patterns.is_empty());
    // ...while a window of two lets the third line see the first again.
    let patterns = analyze_file_content(text, 2);
    assert_eq!(kinds(&patterns), vec![(PatternType::IdenticalRhs, 3)]);
}

#[test]
fn window_zero_disables_windowed_rules() {
    let patterns = analyze_file_content("a = x + y\nb = x + y", 0);
    assert!(patterns.is_empty());
    let patterns = analyze_file_content("x = x\ny = x", 0);
    assert_eq!(kinds(&patterns), vec![(PatternType::SelfAssignment, 1)]);
}

#[test]
fn windowed_rules_survive_past_the_first_window() {
    // Lines far beyond the window size still fire against their own
    // recent window.
    let text = "u1 = 1 + q\nv2 = 2 + r\nw3 = 3 + s\nx4 = 4 + t\ny5 = m * n\nz6 = m * n";
    let patterns = analyze_file_content(text, 2);
    assert!(kinds(&patterns).contains(&(PatternType::IdenticalRhs, 6)));
}

#[test]
fn first_matching_prior_line_wins() {
    // Both line 1 and line 2 match line 3; the earliest in the window is
    // reported through the repeated-LHS record.
    let patterns = analyze_file_content("q.r = a + 1\nq.r = b * 2\nq.r = c / 3", 5);
    let repeated: Vec<&Pattern> = patterns
        .iter()
        .filter(|p| matches!(p.pattern_type, PatternType::RepeatedLhs))
        .collect();
    assert_eq!(repeated.len(), 2);
    // Line 2 matches line 1; line 3 also matches line 1 first.
    assert_eq!(repeated[0].line_num, 1);
    assert_eq!(repeated[1].line_num, 1);
}

#[test]
fn assignment_with_empty_side_is_discarded() {
    // An operator in first position leaves an empty left-hand side; the
    // engine discards such lines.
    let patterns = analyze_file_content("= x + y\n= x + y", 5);
    assert!(patterns.is_empty());
}

#[test]
fn crlf_lines_are_split_like_plain_newlines() {
    let patterns = analyze_file_content("a = x + y\r\nb = x + y\r\n", 5);
    assert_eq!(kinds(&patterns), vec![(PatternType::IdenticalRhs, 2)]);
    assert_eq!(patterns[0].content, "b = x + y");
}

#[test]
fn finding_records_carry_the_assignment_pieces() {
    let patterns = analyze_file_content("a = x + y\nb = x + y", 5);
    let p = &patterns[0];
    assert_eq!(p.lhs, vec!["b".to_string()]);
    assert_eq!(p.rhs, vec!["x".to_string(), "+".to_string(), "y".to_string()]);
    assert_eq!(p.operators, vec!["=".to_string()]);
}

#[test]
fn analysis_is_deterministic() {
    let text = "a = x + y\nb = x + y\nc = c\ncount = 0\ncount = n + 1";
    let first = kinds(&analyze_file_content(text, 3));
    let second = kinds(&analyze_file_content(text, 3));
    assert_eq!(first, second);
}
