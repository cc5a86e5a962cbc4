//! Tests for the tokenizer, normalizer, detector and comment trimmer.

use copyedit_check::pattern::{detect_assignment, normalize_identifiers, tokenize_line, trim_comment_tokens};

fn strs(v: &[&str]) -> Vec<String> {
    v.iter().map(|s| s.to_string()).collect()
}

#[test]
fn test_normalize_identifiers() {
    // Array expressions: brackets and punctuation stay verbatim, numbers
    // collapse, plain identifiers collapse.
    let tokens = vec!["matrix".to_string(), "[".to_string(), "0".to_string(), "]".to_string()];
    let normalized = normalize_identifiers(&tokens);
    assert_eq!(normalized, ["<VAR>".to_string(), "[".to_string(), "<NUM>".to_string(), "]".to_string()]);

    // Numeric values.
    let tokens = vec!["123".to_string(), "+".to_string(), "456".to_string()];
    let normalized = normalize_identifiers(&tokens);
    assert_eq!(normalized, ["<NUM>".to_string(), "+".to_string(), "<NUM>".to_string()]);

    // Plain variables.
    let tokens = vec!["var1".to_string(), "=".to_string(), "var2".to_string()];
    let normalized = normalize_identifiers(&tokens);
    assert_eq!(normalized, ["<VAR>".to_string(), "=".to_string(), "<VAR>".to_string()]);
}

#[test]
fn normalize_signed_numbers_and_mixed_tokens() {
    let out = normalize_identifiers(&strs(&["-12", "+7", "x_y", "abc9", "a.b", "+", "-"]));
    assert_eq!(
        out,
        strs(&["<NUM>", "<NUM>", "x_y", "<VAR>", "a.b", "+", "-"])
    );
}

#[test]
fn normalize_is_idempotent_on_samples() {
    let xs = strs(&["a+b", "123", "foo", "<NUM>", "<VAR>", "[", ","]);
    let once = normalize_identifiers(&xs);
    let twice = normalize_identifiers(&once);
    assert_eq!(once, twice);
}

#[test]
fn tokenize_strips_line_comments() {
    assert_eq!(tokenize_line("a = b // trailing note"), strs(&["a", "=", "b"]));
    assert_eq!(tokenize_line("// all comment"), Vec::<String>::new());
}

#[test]
fn tokenize_brackets_and_commas_stand_alone() {
    assert_eq!(
        tokenize_line("m[0],x"),
        strs(&["m", "[", "0", "]", ",", "x"])
    );
}

#[test]
fn tokenize_empty_and_whitespace() {
    assert_eq!(tokenize_line(""), Vec::<String>::new());
    assert_eq!(tokenize_line("   \t  "), Vec::<String>::new());
}

#[test]
fn tokenize_keeps_compound_tokens_whole() {
    assert_eq!(tokenize_line("total += x1*y2"), strs(&["total", "+=", "x1*y2"]));
}

#[test]
fn detect_splits_at_leftmost_operator() {
    let (lhs, op, rhs) = detect_assignment("a = b = c").unwrap();
    assert_eq!(lhs, strs(&["a"]));
    assert_eq!(op, "=");
    assert_eq!(rhs, strs(&["b", "=", "c"]));
}

#[test]
fn detect_recognizes_compound_operators() {
    let (lhs, op, rhs) = detect_assignment("x += 2").unwrap();
    assert_eq!(lhs, strs(&["x"]));
    assert_eq!(op, "+=");
    assert_eq!(rhs, strs(&["2"]));
    assert!(detect_assignment("v <<= 1").is_some());
    assert!(detect_assignment("w &&= flag").is_some());
}

#[test]
fn detect_needs_three_tokens_and_an_operator() {
    assert!(detect_assignment("x =").is_none());
    assert!(detect_assignment("x").is_none());
    assert!(detect_assignment("").is_none());
    assert!(detect_assignment("a b c").is_none());
}

#[test]
fn trim_comments_cuts_at_hash_and_slashes() {
    assert_eq!(
        trim_comment_tokens(&strs(&["x", "+", "y", "#note", "z"])),
        strs(&["x", "+", "y"])
    );
    assert_eq!(
        trim_comment_tokens(&strs(&["#lead", "x"])),
        Vec::<String>::new()
    );
    let untouched = strs(&["x", "/", "y"]);
    assert_eq!(trim_comment_tokens(&untouched), untouched);
}
