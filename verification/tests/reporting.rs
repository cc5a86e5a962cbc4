//! Tests for the record formats the reporter produces.

use copyedit_check::pattern::{Pattern, PatternType};
use copyedit_check::report::format_finding;

fn finding(rule: PatternType, line_num: usize, content: &str) -> Pattern {
    Pattern {
        pattern_type: rule,
        line_num,
        content: content.to_string(),
        lhs: vec!["x".to_string()],
        rhs: vec!["x".to_string()],
        operators: vec!["=".to_string()],
    }
}

#[test]
fn text_record_pads_the_line_number() {
    let p = finding(PatternType::IdenticalRhs, 2, "  b = x + y  ");
    let out = format_finding("src/demo.py", &p, false);
    assert_eq!(out, "src/demo.py:   2  [IdenticalRhs]  b = x + y");
}

#[test]
fn text_record_wide_line_number_is_not_padded() {
    let p = finding(PatternType::RepeatedLhs, 12345, "count = 0");
    let out = format_finding("f", &p, false);
    assert_eq!(out, "f:12345  [RepeatedLhs]  count = 0");
}

#[test]
fn json_record_shape() {
    let p = finding(PatternType::SelfAssignment, 7, "\tx = x");
    let out = format_finding("a.c", &p, true);
    assert_eq!(
        out,
        "{ \"file\": \"a.c\", \"line\": 7, \"rule\": \"SelfAssignment\", \"code\": \"x = x \" }"
    );
}

#[test]
fn rule_identifiers_are_exact() {
    assert_eq!(PatternType::IdenticalRhs.rule_id(), "IdenticalRhs");
    assert_eq!(PatternType::RepeatedLhs.rule_id(), "RepeatedLhs");
    assert_eq!(PatternType::SelfAssignment.rule_id(), "SelfAssignment");
}
