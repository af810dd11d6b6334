use gha_see::expr::{extract_expressions, unbalanced_expression};

#[test]
fn flags_unbalanced_expression() {
    assert!(gha_see::expr::unbalanced_expression("echo ${{ github.sha"));
}

#[test]
fn balanced_expression_is_not_flagged() {
    assert!(!unbalanced_expression("echo ${{ github.sha }}"));
}

#[test]
fn stray_closing_delimiter_is_unbalanced() {
    assert!(unbalanced_expression("echo }} github.sha"));
}

#[test]
fn extract_expressions_returns_trimmed_inner_contents() {
    let exprs = extract_expressions("echo ${{ needs.build.outputs.artifact-id }} done");
    assert_eq!(exprs, vec!["needs.build.outputs.artifact-id".to_string()]);
}

#[test]
fn extract_expressions_finds_multiple_expressions_in_order() {
    let exprs = extract_expressions("${{ a.b }} and ${{ c.d }}");
    assert_eq!(exprs, vec!["a.b".to_string(), "c.d".to_string()]);
}

#[test]
fn extract_expressions_skips_unmatched_open() {
    let exprs = extract_expressions("${{ a.b }} and ${{ trailing");
    assert_eq!(exprs, vec!["a.b".to_string()]);
}
