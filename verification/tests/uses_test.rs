use gha_see::findings::{FindingTarget, Severity};
use gha_see::ir::SupportTier;
use gha_see::ir::{normalize, WorkflowFile};
use gha_see::uses::{
    apply_action, call_cycle_chain, cycle_reason, depth_reason, is_action_file_name, is_local, local_relative,
    prefixed, reusable_calls, settle_call, settle_step, unresolved_finding, ActionLookup, ActionMeta, CallLookup,
    MAX_USES_DEPTH,
};
use gha_see::parse::{RawJob, RawStep, RawWorkflow};
use gha_see::yaml::Yaml;

#[test]
fn local_references_start_with_dot_slash_or_github_dir() {
    assert!(is_local("./actions/setup"));
    assert!(is_local(".github/workflows/build.yml"));
    assert!(!is_local("actions/checkout@v4"));
    assert!(!is_local("docker://alpine"));
}

#[test]
fn prefixed_ids_join_with_angle_bracket() {
    assert_eq!(prefixed("call", "build"), "call>build");
    assert_eq!(local_relative("./a/b"), "a/b");
    assert_eq!(local_relative(".github/x"), ".github/x");
}

#[test]
fn unresolved_local_and_remote_references() {
    let target = FindingTarget::Job { file: "w.yml".to_string(), job: "j".to_string() };
    let local = unresolved_finding(target.clone(), "./missing");
    assert_eq!(local.code, "GHA_USES_MISSING");
    assert_eq!(local.severity, Severity::Error);
    let remote = unresolved_finding(target, "owner/repo@v1");
    assert_eq!(remote.code, "GHA_USES_REMOTE");
    assert_eq!(remote.severity, Severity::Info);
}

#[test]
fn call_cycle_chain_starts_at_first_occurrence() {
    let stack = vec!["a.yml".to_string(), "b.yml".to_string(), "c.yml".to_string()];
    assert_eq!(
        call_cycle_chain(&stack, "b.yml"),
        Some(vec!["b.yml".to_string(), "c.yml".to_string(), "b.yml".to_string()])
    );
    assert_eq!(call_cycle_chain(&stack, "d.yml"), None);
}

#[test]
fn deferral_reasons_and_action_file_names() {
    assert_eq!(depth_reason(), "uses expansion exceeded depth 8");
    assert_eq!(cycle_reason(), "composite action uses cycle");
    assert!(is_action_file_name("action.yml"));
    assert!(is_action_file_name("action.yaml"));
    assert!(!is_action_file_name("action.json"));
}

fn raw_step(run: &str) -> RawStep {
    RawStep {
        name: None,
        id: None,
        uses: None,
        run: Some(run.to_string()),
        shell: None,
        working_directory: None,
        condition: None,
        with_inputs: vec![],
        env: vec![],
        extra: vec![],
    }
}

fn step_using(uses: &str) -> gha_see::ir::Step {
    let mut wf_step = gha_see::ir::Step {
        name: None,
        id: None,
        uses: Some(uses.to_string()),
        run: None,
        shell: None,
        working_directory: None,
        condition: None,
        with_inputs: gha_see::smap::StrMap::new(),
        env: gha_see::smap::StrMap::new(),
        resolved_action_name: None,
        action_runner: None,
        composite_steps: vec![],
        support: SupportTier::Deferred,
        deferred_reasons: vec!["earlier".to_string()],
    };
    wf_step.with_inputs.insert("token".to_string(), "mine".to_string());
    wf_step
}

#[test]
fn node_action_fills_in_metadata_and_defaults() {
    let mut step = step_using("./act");
    let meta = ActionMeta {
        name: Some("Setup".to_string()),
        inputs: vec![
            ("token".to_string(), Some(Yaml::Str("default".to_string()))),
            ("level".to_string(), Some(Yaml::Number("3".to_string()))),
            ("none".to_string(), None),
        ],
        using: "node20".to_string(),
        steps: vec![],
    };
    assert!(!apply_action(&mut step, meta));
    assert_eq!(step.support, SupportTier::Supported);
    assert!(step.deferred_reasons.is_empty());
    assert_eq!(step.resolved_action_name.as_deref(), Some("Setup"));
    assert_eq!(step.action_runner.as_deref(), Some("node20"));
    assert_eq!(step.with_inputs.get("token").map(|s| s.as_str()), Some("mine"));
    assert_eq!(step.with_inputs.get("level").map(|s| s.as_str()), Some("3"));
    assert!(step.with_inputs.get("none").is_none());
}

#[test]
fn composite_action_gets_its_steps() {
    let mut step = step_using("./act");
    let meta = ActionMeta {
        name: None,
        inputs: vec![],
        using: "Composite".to_string(),
        steps: vec![raw_step("echo one"), raw_step("echo two")],
    };
    assert!(apply_action(&mut step, meta));
    assert_eq!(step.composite_steps.len(), 2);
    assert_eq!(step.composite_steps[1].run.as_deref(), Some("echo two"));
}

fn step_target() -> FindingTarget {
    FindingTarget::Step { file: "w.yml".to_string(), job: "build".to_string(), step_idx: 0 }
}

#[test]
fn step_without_uses_is_left_alone() {
    let mut step = step_using("./act");
    step.uses = None;
    let (finding, composite) = settle_step(&mut step, 0, None, step_target());
    assert!(finding.is_none());
    assert!(!composite);
    assert_eq!(step.deferred_reasons, vec!["earlier".to_string()]);
}

#[test]
fn step_at_the_depth_limit_is_deferred_with_the_depth_reason() {
    let mut step = step_using("./act");
    let (finding, composite) = settle_step(&mut step, MAX_USES_DEPTH, Some(ActionLookup::Missing), step_target());
    assert!(finding.is_none());
    assert!(!composite);
    assert_eq!(step.support, SupportTier::Deferred);
    assert_eq!(step.deferred_reasons, vec!["earlier".to_string(), "uses expansion exceeded depth 8".to_string()]);
}

#[test]
fn missing_and_unreadable_actions_defer_with_a_finding() {
    for lookup in [ActionLookup::Missing, ActionLookup::Unreadable] {
        let mut step = step_using("./act");
        let (finding, composite) = settle_step(&mut step, 1, Some(lookup), step_target());
        let finding = finding.expect("a finding for the unresolved reference");
        assert_eq!(finding.code, "GHA_USES_MISSING");
        assert_eq!(finding.message, "Local `uses:` target `./act` could not be found");
        assert_eq!(finding.target, step_target());
        assert!(!composite);
        assert_eq!(step.deferred_reasons, vec!["earlier".to_string()]);
    }
}

#[test]
fn composite_cycle_defers_with_the_cycle_reason() {
    let mut step = step_using("./act");
    let (finding, composite) = settle_step(&mut step, 1, Some(ActionLookup::Cycle), step_target());
    assert!(finding.is_none());
    assert!(!composite);
    assert_eq!(step.deferred_reasons, vec!["earlier".to_string(), "composite action uses cycle".to_string()]);
}

#[test]
fn found_composite_action_asks_for_its_steps() {
    let mut step = step_using("./act");
    let meta = ActionMeta {
        name: Some("Both".to_string()),
        inputs: vec![],
        using: "composite".to_string(),
        steps: vec![raw_step("echo one")],
    };
    let (finding, composite) = settle_step(&mut step, 1, Some(ActionLookup::Found(meta)), step_target());
    assert!(finding.is_none());
    assert!(composite);
    assert_eq!(step.support, SupportTier::Supported);
    assert_eq!(step.composite_steps.len(), 1);
}

fn calling_workflow() -> WorkflowFile {
    let call = RawJob {
        runs_on: None,
        needs: vec![],
        condition: None,
        outputs: vec![],
        steps: vec![],
        env: vec![],
        concurrency: None,
        services: vec![],
        permissions: None,
        environment: None,
        defaults: None,
        strategy: None,
        strategy_text: None,
        uses: Some("./.github/workflows/reusable.yml".to_string()),
        with_inputs: vec![],
        extra: vec![],
    };
    let raw = RawWorkflow {
        name: Some("W".to_string()),
        on: Yaml::Str("push".to_string()),
        concurrency: None,
        permissions: None,
        defaults: None,
        jobs: vec![("call".to_string(), call)],
        extra: vec![],
    };
    normalize("w.yml".to_string(), raw)
}

#[test]
fn found_reusable_workflow_is_inlined_and_nothing_changes() {
    let mut wf = calling_workflow();
    let calls = reusable_calls(&wf);
    assert_eq!(calls.len(), 1);
    let before = wf.jobs.get("call").unwrap().support;
    let (finding, inline) = settle_call(&mut wf, &calls[0], 0, Some(CallLookup::Found));
    assert!(finding.is_none());
    assert!(inline);
    assert_eq!(wf.jobs.get("call").unwrap().support, before);
}

#[test]
fn call_cycle_defers_the_call_with_a_finding() {
    let mut wf = calling_workflow();
    let calls = reusable_calls(&wf);
    let chain = vec!["a.yml".to_string(), "b.yml".to_string(), "a.yml".to_string()];
    let (finding, inline) = settle_call(&mut wf, &calls[0], 1, Some(CallLookup::Cycle(chain)));
    let finding = finding.expect("a cycle finding");
    assert_eq!(finding.code, "GHA_WORKFLOW_CALL");
    assert_eq!(finding.message, "Reusable workflow call cycle detected: a.yml -> b.yml -> a.yml");
    assert_eq!(finding.target, FindingTarget::File("w.yml".to_string()));
    assert!(!inline);
    assert_eq!(wf.jobs.get("call").unwrap().support, SupportTier::Deferred);
    assert_eq!(wf.instances.get("call").unwrap().support, SupportTier::Deferred);
}

#[test]
fn missing_callee_and_depth_limit_defer_the_call() {
    let mut wf = calling_workflow();
    let calls = reusable_calls(&wf);
    let (finding, inline) = settle_call(&mut wf, &calls[0], 0, Some(CallLookup::Missing));
    assert_eq!(finding.unwrap().code, "GHA_USES_MISSING");
    assert!(!inline);
    assert_eq!(wf.jobs.get("call").unwrap().support, SupportTier::Deferred);

    let mut wf = calling_workflow();
    let (finding, inline) = settle_call(&mut wf, &calls[0], MAX_USES_DEPTH, None);
    let finding = finding.unwrap();
    assert_eq!(finding.code, "GHA_USES_REMOTE");
    assert_eq!(finding.target, FindingTarget::Job { file: "w.yml".to_string(), job: "call".to_string() });
    assert!(!inline);
}
