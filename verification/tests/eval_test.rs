use gha_see::eval::EvalContext;

#[test]
fn default_mock_is_push_to_main_with_no_env() {
    let ctx = EvalContext::default_mock();
    assert_eq!(ctx.event_name, "push");
    assert_eq!(ctx.ref_name, "refs/heads/main");
    assert!(ctx.env.is_empty());
}
