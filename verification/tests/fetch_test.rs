use gha_see::fetch::RemoteRef;

#[test]
fn parses_remote_action_and_cache_layout() {
    let remote = RemoteRef::parse("actions/checkout@v4").unwrap();

    assert_eq!(remote.owner, "actions");
    assert_eq!(remote.repo, "checkout");
    assert_eq!(remote.subpath, None);
    assert_eq!(remote.rev, "v4");
    assert_eq!(remote.cache_path("/tmp/cache"), "/tmp/cache/gh/actions/checkout/v4");
}

#[test]
fn parses_remote_subpath_and_workflow_path() {
    let action = RemoteRef::parse("acme/tools/actions/setup@feature/test").unwrap();
    assert_eq!(action.subpath.as_deref(), Some("actions/setup"));
    assert_eq!(action.rev, "feature/test");
    assert!(action.cache_path("/tmp/cache").ends_with("gh/acme/tools/feature_test"));

    let workflow = RemoteRef::parse("acme/platform/.github/workflows/deploy.yml@0123456").unwrap();
    assert_eq!(workflow.subpath.as_deref(), Some(".github/workflows/deploy.yml"));
}

#[test]
fn accepts_missing_ref_as_head_and_rejects_local_or_malformed_uses() {
    assert_eq!(RemoteRef::parse("acme/tools").unwrap().rev, "HEAD");
    assert!(RemoteRef::parse("./.github/actions/local").is_err());
    assert!(RemoteRef::parse("docker://alpine:latest").is_err());
    assert!(RemoteRef::parse("owner-only@v1").is_err());
}
