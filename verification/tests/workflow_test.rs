use gha_see::analysis::collect_matrix_findings;
use gha_see::eval::{evaluate, EvalContext, NeedStatus, RunState};
use gha_see::expr::scan_workflow;
use gha_see::ir::{normalize, Permissions, SupportTier, WorkflowFile};
use gha_see::graph::{build_job_graph, topo_levels};
use gha_see::matrix::{expand_matrix, MatrixError, MatrixNote, MAX_INSTANCES};
use gha_see::parse::{RawJob, RawStep, RawWorkflow};
use gha_see::smap::StrMap;
use gha_see::yaml::Yaml;

// Reading workflow YAML the way the command-line tool does, by walking the
// serde_yaml value tree.

fn written(v: &serde_yaml::Value) -> String {
    serde_yaml::to_string(v).unwrap_or_default().trim().to_string()
}

fn yaml_of(v: serde_yaml::Value) -> Yaml {
    match v {
        serde_yaml::Value::Null => Yaml::Null,
        serde_yaml::Value::Bool(b) => Yaml::Bool(b),
        serde_yaml::Value::Number(n) => Yaml::Number(n.to_string()),
        serde_yaml::Value::String(s) => Yaml::Str(s),
        serde_yaml::Value::Sequence(items) => {
            let text = written(&serde_yaml::Value::Sequence(items.clone()));
            Yaml::List(items.into_iter().map(yaml_of).collect(), text)
        }
        serde_yaml::Value::Mapping(map) => {
            let text = written(&serde_yaml::Value::Mapping(map.clone()));
            Yaml::Mapping(map.into_iter().map(|(k, v)| (yaml_of(k), yaml_of(v))).collect(), text)
        }
        other => Yaml::Tagged(written(&other)),
    }
}

fn text(v: &serde_yaml::Value) -> Option<String> {
    v.as_str().map(|s| s.to_string())
}

fn entries(v: Option<serde_yaml::Value>) -> Vec<(String, serde_yaml::Value)> {
    match v {
        Some(serde_yaml::Value::Mapping(m)) => m
            .into_iter()
            .map(|(k, v)| (k.as_str().unwrap().to_string(), v))
            .collect(),
        _ => vec![],
    }
}

fn string_pairs(v: Option<serde_yaml::Value>) -> Vec<(String, String)> {
    entries(v).into_iter().map(|(k, v)| (k, text(&v).unwrap())).collect()
}

fn yaml_pairs(v: Option<serde_yaml::Value>) -> Vec<(String, Yaml)> {
    entries(v).into_iter().map(|(k, v)| (k, yaml_of(v))).collect()
}

fn take(map: &mut serde_yaml::Mapping, key: &str) -> Option<serde_yaml::Value> {
    map.remove(serde_yaml::Value::String(key.to_string()))
}

fn step_of(v: serde_yaml::Value) -> RawStep {
    let serde_yaml::Value::Mapping(mut m) = v else { panic!("step must be a mapping") };
    RawStep {
        name: take(&mut m, "name").and_then(|v| text(&v)),
        id: take(&mut m, "id").and_then(|v| text(&v)),
        uses: take(&mut m, "uses").and_then(|v| text(&v)),
        run: take(&mut m, "run").and_then(|v| text(&v)),
        shell: take(&mut m, "shell").and_then(|v| text(&v)),
        working_directory: take(&mut m, "working-directory").and_then(|v| text(&v)),
        condition: take(&mut m, "if").and_then(|v| text(&v)),
        with_inputs: yaml_pairs(take(&mut m, "with")),
        env: string_pairs(take(&mut m, "env")),
        extra: m.into_iter().map(|(k, v)| (k.as_str().unwrap().to_string(), yaml_of(v))).collect(),
    }
}

fn job_of(v: serde_yaml::Value) -> RawJob {
    let serde_yaml::Value::Mapping(mut m) = v else { panic!("job must be a mapping") };
    let needs = match take(&mut m, "needs") {
        Some(serde_yaml::Value::String(s)) => vec![s],
        Some(serde_yaml::Value::Sequence(items)) => items.iter().map(|i| text(i).unwrap()).collect(),
        _ => vec![],
    };
    let strategy = take(&mut m, "strategy");
    let strategy_text = strategy.as_ref().and_then(|s| serde_yaml::to_string(s).ok());
    let steps = match take(&mut m, "steps") {
        Some(serde_yaml::Value::Sequence(items)) => items.into_iter().map(step_of).collect(),
        _ => vec![],
    };
    RawJob {
        runs_on: take(&mut m, "runs-on").map(yaml_of),
        needs,
        condition: take(&mut m, "if").and_then(|v| text(&v)),
        outputs: string_pairs(take(&mut m, "outputs")),
        steps,
        env: string_pairs(take(&mut m, "env")),
        concurrency: take(&mut m, "concurrency").map(yaml_of),
        services: yaml_pairs(take(&mut m, "services")),
        permissions: take(&mut m, "permissions").map(yaml_of),
        environment: take(&mut m, "environment").map(yaml_of),
        defaults: take(&mut m, "defaults").map(yaml_of),
        strategy: strategy.map(yaml_of),
        strategy_text,
        uses: take(&mut m, "uses").and_then(|v| text(&v)),
        with_inputs: yaml_pairs(take(&mut m, "with")),
        extra: m.into_iter().map(|(k, v)| (k.as_str().unwrap().to_string(), yaml_of(v))).collect(),
    }
}

fn parse_workflow_str(s: &str) -> RawWorkflow {
    let serde_yaml::Value::Mapping(mut m) = serde_yaml::from_str::<serde_yaml::Value>(s).unwrap() else {
        panic!("workflow must be a mapping")
    };
    let jobs = entries(take(&mut m, "jobs")).into_iter().map(|(k, v)| (k, job_of(v))).collect();
    RawWorkflow {
        name: take(&mut m, "name").and_then(|v| text(&v)),
        on: take(&mut m, "on").map(yaml_of).unwrap_or(Yaml::Null),
        concurrency: take(&mut m, "concurrency").map(yaml_of),
        permissions: take(&mut m, "permissions").map(yaml_of),
        defaults: take(&mut m, "defaults").map(yaml_of),
        jobs,
        extra: m.into_iter().map(|(k, v)| (k.as_str().unwrap().to_string(), yaml_of(v))).collect(),
    }
}

fn workflow(file: &str, yaml: &str) -> WorkflowFile {
    normalize(file.to_string(), parse_workflow_str(yaml))
}

fn no_hash(_root: String, _patterns: Vec<String>) -> Option<String> {
    None
}

fn state_of(wf: &WorkflowFile, ctx: &EvalContext, key: &str) -> RunState {
    let (states, _) = evaluate(wf, ctx, &no_hash);
    *states.get(key).expect("state recorded")
}

#[test]
fn unknown_for_unsupported_fn() {
    let wf = workflow(
        "n.yml",
        r#"
name: N
on: push
jobs:
  build:
    if: hashFiles('**/x') == ''
    runs-on: ubuntu-latest
    steps: [{run: echo hi}]
"#,
    );
    let (states, findings) = evaluate(&wf, &EvalContext::default_mock(), &no_hash);
    assert_eq!(*states.get("build").unwrap(), RunState::Unknown);
    assert!(findings.iter().any(|f| f.code == "GHA_COND_UNKNOWN"));
}

#[test]
fn no_condition_always_runs() {
    let wf = workflow(
        "n.yml",
        r#"
name: N
on: push
jobs:
  build:
    runs-on: ubuntu-latest
    steps: [{run: echo hi}]
"#,
    );
    let (states, findings) = evaluate(&wf, &EvalContext::default_mock(), &no_hash);
    assert_eq!(*states.get("build").unwrap(), RunState::WillRun);
    assert!(findings.is_empty());
}

#[test]
fn true_and_false_literals() {
    let wf = workflow(
        "n.yml",
        r#"
name: N
on: push
jobs:
  always-on:
    if: 'true'
    runs-on: ubuntu-latest
    steps: [{run: echo hi}]
  never-on:
    if: 'false'
    runs-on: ubuntu-latest
    steps: [{run: echo hi}]
"#,
    );
    let ctx = EvalContext::default_mock();
    assert_eq!(state_of(&wf, &ctx, "always-on"), RunState::WillRun);
    assert_eq!(state_of(&wf, &ctx, "never-on"), RunState::Skipped);
}

#[test]
fn success_and_always_are_true_failure_and_cancelled_are_false() {
    let wf = workflow(
        "n.yml",
        r#"
name: N
on: push
jobs:
  a:
    if: success()
    runs-on: ubuntu-latest
    steps: [{run: echo hi}]
  b:
    if: always()
    runs-on: ubuntu-latest
    steps: [{run: echo hi}]
  c:
    if: failure()
    runs-on: ubuntu-latest
    steps: [{run: echo hi}]
  d:
    if: cancelled()
    runs-on: ubuntu-latest
    steps: [{run: echo hi}]
"#,
    );
    let ctx = EvalContext::default_mock();
    assert_eq!(state_of(&wf, &ctx, "a"), RunState::WillRun);
    assert_eq!(state_of(&wf, &ctx, "b"), RunState::WillRun);
    assert_eq!(state_of(&wf, &ctx, "c"), RunState::Skipped);
    assert_eq!(state_of(&wf, &ctx, "d"), RunState::Skipped);
}

#[test]
fn and_or_not_and_parentheses_combine() {
    let wf = workflow(
        "n.yml",
        r#"
name: N
on: push
jobs:
  build:
    if: "!(github.event_name == 'pull_request') && (github.ref == 'refs/heads/main' || false)"
    runs-on: ubuntu-latest
    steps: [{run: echo hi}]
"#,
    );
    assert_eq!(state_of(&wf, &EvalContext::default_mock(), "build"), RunState::WillRun);
}

const ENV_DEPLOY: &str = r#"
name: N
on: push
jobs:
  build:
    if: env.DEPLOY == 'yes'
    runs-on: ubuntu-latest
    steps: [{run: echo hi}]
"#;

#[test]
fn env_condition_resolves_when_env_var_set() {
    let wf = workflow("n.yml", ENV_DEPLOY);
    let mut env = StrMap::new();
    env.insert("DEPLOY".to_string(), "yes".to_string());
    let ctx = EvalContext { env, ..EvalContext::default_mock() };
    assert_eq!(state_of(&wf, &ctx, "build"), RunState::WillRun);
}

#[test]
fn env_condition_is_unknown_when_env_var_unset() {
    let wf = workflow("n.yml", ENV_DEPLOY);
    let (states, findings) = evaluate(&wf, &EvalContext::default_mock(), &no_hash);
    assert_eq!(*states.get("build").unwrap(), RunState::Unknown);
    assert!(findings.iter().any(|f| f.code == "GHA_COND_UNKNOWN"));
}

#[test]
fn deferred_job_state_matches_support_tier() {
    let wf = workflow(
        "n.yml",
        r#"
name: N
on: push
jobs:
  test:
    runs-on: ubuntu-latest
    strategy:
      matrix: ${{ fromJson(needs.setup.outputs.matrix) }}
    steps: [{run: echo hi}]
"#,
    );
    assert_eq!(state_of(&wf, &EvalContext::default_mock(), "test"), RunState::Deferred);
}

#[test]
fn skipped_upstream_skips_dependent_job_regardless_of_its_own_condition() {
    let wf = workflow(
        "n.yml",
        r#"
name: N
on: push
jobs:
  build:
    if: "false"
    runs-on: ubuntu-latest
    steps: [{run: echo build}]
  deploy:
    needs: [build]
    runs-on: ubuntu-latest
    steps: [{run: echo deploy}]
"#,
    );
    let ctx = EvalContext::default_mock();
    assert_eq!(state_of(&wf, &ctx, "build"), RunState::Skipped);
    assert_eq!(state_of(&wf, &ctx, "deploy"), RunState::Skipped);
}

#[test]
fn unknown_upstream_makes_dependent_unknown() {
    let wf = workflow(
        "n.yml",
        r#"
name: N
on: push
jobs:
  build:
    if: hashFiles('**/x') == ''
    runs-on: ubuntu-latest
    steps: [{run: echo build}]
  deploy:
    needs: [build]
    runs-on: ubuntu-latest
    steps: [{run: echo deploy}]
"#,
    );
    let ctx = EvalContext::default_mock();
    assert_eq!(state_of(&wf, &ctx, "build"), RunState::Unknown);
    assert_eq!(state_of(&wf, &ctx, "deploy"), RunState::Unknown);
}

#[test]
fn step_level_condition_can_skip_within_a_running_job() {
    let wf = workflow(
        "n.yml",
        r#"
name: N
on: push
jobs:
  build:
    runs-on: ubuntu-latest
    steps:
      - run: echo always
      - run: echo pr-only
        if: github.event_name == 'pull_request'
"#,
    );
    let (states, findings) = evaluate(&wf, &EvalContext::default_mock(), &no_hash);
    assert_eq!(*states.get("build").unwrap(), RunState::WillRun);
    assert_eq!(*states.get("build#0").unwrap(), RunState::WillRun);
    assert_eq!(*states.get("build#1").unwrap(), RunState::Skipped);
    assert!(findings.iter().any(|f| f.code == "GHA_COND_SKIP"));
}

#[test]
fn steps_are_skipped_when_their_job_is_skipped() {
    let wf = workflow(
        "n.yml",
        r#"
name: N
on: push
jobs:
  build:
    if: "false"
    runs-on: ubuntu-latest
    steps: [{run: echo hi}]
"#,
    );
    let ctx = EvalContext::default_mock();
    assert_eq!(state_of(&wf, &ctx, "build"), RunState::Skipped);
    assert_eq!(state_of(&wf, &ctx, "build#0"), RunState::Skipped);
}

fn evaluate_condition(condition: &str, ctx: &EvalContext) -> RunState {
    let yaml = format!(
        r#"
name: N
on: push
jobs:
  test:
    if: {condition}
    runs-on: ubuntu-latest
    steps: [{{run: echo hi}}]
"#
    );
    let wf = workflow("condition.yml", &yaml);
    state_of(&wf, ctx, "test")
}

#[test]
fn string_functions_evaluate_case_insensitively() {
    let ctx = EvalContext::default_mock();
    assert_eq!(evaluate_condition(r#""contains(github.ref, 'HEADS/MAIN')""#, &ctx), RunState::WillRun);
    assert_eq!(evaluate_condition(r#""startsWith(github.ref, 'REFS/HEADS')""#, &ctx), RunState::WillRun);
    assert_eq!(evaluate_condition(r#""endsWith(github.ref, '/MAIN')""#, &ctx), RunState::WillRun);
}

#[test]
fn format_and_join_produce_comparable_values() {
    let ctx = EvalContext::default_mock();
    assert_eq!(
        evaluate_condition(r#""format('{0}/{1}', 'octo', 'repo') == 'octo/repo'""#, &ctx),
        RunState::WillRun
    );
    assert_eq!(
        evaluate_condition(r#""join(fromJSON('[\"one\",\"two\"]'), ':') == 'one:two'""#, &ctx),
        RunState::WillRun
    );
    assert_eq!(evaluate_condition(r#""join('[\"one\",\"two\"]', ',') == 'one,two'""#, &ctx), RunState::WillRun);
}

#[test]
fn json_functions_round_trip_arrays_and_objects() {
    let ctx = EvalContext::default_mock();
    assert_eq!(
        evaluate_condition(r#""contains(fromJSON('[\"push\",\"pull_request\"]'), github.event_name)""#, &ctx),
        RunState::WillRun
    );
    assert_eq!(
        evaluate_condition(r#""toJSON(fromJSON('{\"ok\":true}')) == '{\"ok\":true}'""#, &ctx),
        RunState::WillRun
    );
}

#[test]
fn ordered_comparisons_support_numbers_and_strings() {
    let ctx = EvalContext::default_mock();
    assert_eq!(evaluate_condition(r#""2 < 10 && 10 >= 10""#, &ctx), RunState::WillRun);
    assert_eq!(evaluate_condition(r#""'alpha' <= 'beta' && 'zeta' > 'beta'""#, &ctx), RunState::WillRun);
}

#[test]
fn extended_contexts_resolve_and_secrets_stay_unknown() {
    let mut ctx = EvalContext::default_mock();
    ctx.github.sha = "abc123".into();
    ctx.github.repository = "octo/repo".into();
    ctx.github.actor = "octocat".into();
    ctx.vars.insert("CHANNEL".into(), "stable".into());
    ctx.inputs.insert("deploy".into(), "yes".into());
    ctx.secrets.insert("TOKEN".into());
    assert_eq!(
        evaluate_condition(
            r#""github.ref_name == 'main' && github.sha == 'abc123' && github.repository == 'octo/repo' && github.actor == 'octocat' && vars.CHANNEL == 'stable' && inputs.deploy == 'yes'""#,
            &ctx
        ),
        RunState::WillRun
    );
    assert_eq!(evaluate_condition(r#""secrets.TOKEN == 'invented'""#, &ctx), RunState::Unknown);
}

#[test]
fn supplied_needs_outputs_resolve() {
    let mut ctx = EvalContext::default_mock();
    let mut outputs = StrMap::new();
    outputs.insert("artifact".to_string(), "app".to_string());
    ctx.needs.insert("build".into(), NeedStatus { result: "success".into(), outputs });
    assert_eq!(
        evaluate_condition(r#""needs.build.result == 'success' && needs.build.outputs.artifact == 'app'""#, &ctx),
        RunState::WillRun
    );
}

#[test]
fn evaluate_wires_needs_result_from_upstream_run_state() {
    let wf = workflow(
        "needs.yml",
        r#"
name: N
on: push
jobs:
  build:
    runs-on: ubuntu-latest
    steps: [{run: echo build}]
  deploy:
    needs: build
    if: needs.build.result == 'success'
    runs-on: ubuntu-latest
    steps: [{run: echo deploy}]
"#,
    );
    let ctx = EvalContext::default_mock();
    assert_eq!(state_of(&wf, &ctx, "build"), RunState::WillRun);
    assert_eq!(state_of(&wf, &ctx, "deploy"), RunState::WillRun);
}

#[test]
fn dynamic_matrix_job_stays_deferred() {
    let wf = workflow(
        "dynamic_matrix.yml",
        r#"
name: DynamicMatrix
on: push
jobs:
  test:
    runs-on: ubuntu-latest
    strategy:
      matrix: ${{ fromJson(needs.setup.outputs.matrix) }}
    steps:
      - run: echo hi
"#,
    );
    let job = wf.jobs.get("test").unwrap();
    assert_eq!(job.support, SupportTier::Deferred);
    assert!(matches!(job.matrix_note, Some(MatrixNote::Unsupported(_))));
    assert_eq!(wf.instances.len(), 1);
    let instance = wf.instances.get("test").unwrap();
    assert_eq!(instance.support, SupportTier::Deferred);
    assert!(instance.matrix.is_empty());
}

#[test]
fn reusable_workflow_job_is_deferred() {
    let wf = workflow(
        "reusable.yml",
        r#"
name: Reusable
on: push
jobs:
  call-it:
    uses: octo-org/octo-repo/.github/workflows/reusable.yml@main
"#,
    );
    let job = wf.jobs.get("call-it").unwrap();
    assert_eq!(job.support, SupportTier::Deferred);
    assert!(job.deferred_reasons.is_empty());
    assert_eq!(job.uses.as_deref(), Some("octo-org/octo-repo/.github/workflows/reusable.yml@main"));
}

#[test]
fn non_string_runs_on_is_deferred_with_best_effort_stringify() {
    let wf = workflow(
        "labels.yml",
        r#"
name: Labels
on: push
jobs:
  build:
    runs-on: [self-hosted, linux]
    steps:
      - run: echo hi
"#,
    );
    let job = wf.jobs.get("build").unwrap();
    assert_eq!(job.support, SupportTier::Deferred);
    assert!(job.deferred_reasons.iter().any(|r| r.contains("runs-on")));
    assert_eq!(job.runs_on.as_deref(), Some("self-hosted, linux"));
}

#[test]
fn job_with_concurrency_is_typed_and_supported() {
    let wf = workflow(
        "concurrency.yml",
        r#"
name: Concurrency
on: push
jobs:
  build:
    runs-on: ubuntu-latest
    concurrency:
      group: build-${{ github.ref }}
      cancel-in-progress: true
    steps:
      - run: echo hi
"#,
    );
    let job = wf.jobs.get("build").unwrap();
    assert_eq!(job.support, SupportTier::Supported);
    assert!(job.deferred_reasons.is_empty());
    let concurrency = job.concurrency.as_ref().expect("typed concurrency");
    assert_eq!(concurrency.group, "build-${{ github.ref }}");
    assert_eq!(concurrency.cancel_in_progress, Some(true));
    assert_eq!(wf.instances.get("build").unwrap().concurrency.as_ref().unwrap().group, concurrency.group);
}

#[test]
fn job_with_services_is_typed_and_supported() {
    let wf = workflow(
        "services.yml",
        r#"
name: Services
on: push
jobs:
  build:
    runs-on: ubuntu-latest
    services:
      postgres:
        image: postgres:15
        ports: [5432]
        env:
          POSTGRES_DB: app
        options: --health-cmd pg_isready
    steps:
      - run: echo hi
"#,
    );
    let job = wf.jobs.get("build").unwrap();
    assert_eq!(job.support, SupportTier::Supported);
    assert!(job.deferred_reasons.is_empty());
    let service = job.services.get("postgres").unwrap();
    assert_eq!(service.image.as_deref(), Some("postgres:15"));
    assert_eq!(service.ports, vec!["5432"]);
    assert_eq!(service.env.get("POSTGRES_DB").map(|s| s.as_str()), Some("app"));
    assert_eq!(service.options.as_deref(), Some("--health-cmd pg_isready"));
    assert!(wf.instances.get("build").unwrap().services.contains_key("postgres"));
}

#[test]
fn workflow_and_job_extras_are_typed_and_defaults_inherit_into_steps() {
    let wf = workflow(
        "extras.yml",
        r#"
name: Extras
on: pull_request
concurrency: workflow-${{ github.ref }}
permissions: write-all
defaults:
  run:
    shell: bash
    working-directory: scripts
jobs:
  deploy:
    runs-on: ubuntu-latest
    permissions:
      contents: read
      deployments: write
    environment:
      name: production
      url: https://example.test
    defaults:
      run:
        working-directory: deploy
    steps:
      - run: ./deploy.sh
      - run: ./verify.ps1
        shell: pwsh
        working-directory: verify
"#,
    );
    let workflow_concurrency = wf.concurrency.as_ref().expect("workflow concurrency");
    assert_eq!(workflow_concurrency.group, "workflow-${{ github.ref }}");
    assert_eq!(workflow_concurrency.cancel_in_progress, None);
    assert!(matches!(wf.permissions, Some(Permissions::WriteAll)));
    let workflow_defaults = wf.defaults_run.as_ref().expect("workflow defaults.run");
    assert_eq!(workflow_defaults.shell.as_deref(), Some("bash"));
    assert_eq!(workflow_defaults.working_directory.as_deref(), Some("scripts"));

    let job = wf.jobs.get("deploy").unwrap();
    let Some(Permissions::Scoped(permission_map)) = job.permissions.as_ref() else {
        panic!("expected permission map");
    };
    assert_eq!(permission_map.get("contents").map(|s| s.as_str()), Some("read"));
    assert_eq!(permission_map.get("deployments").map(|s| s.as_str()), Some("write"));
    let environment = job.environment.as_ref().expect("job environment");
    assert_eq!(environment.name, "production");
    assert_eq!(environment.url.as_deref(), Some("https://example.test"));
    assert_eq!(job.defaults_run.as_ref().unwrap().working_directory.as_deref(), Some("deploy"));
    assert_eq!(job.steps[0].shell.as_deref(), Some("bash"));
    assert_eq!(job.steps[0].working_directory.as_deref(), Some("deploy"));
    assert_eq!(job.steps[1].shell.as_deref(), Some("pwsh"));
    assert_eq!(job.steps[1].working_directory.as_deref(), Some("verify"));
    let instance = wf.instances.get("deploy").unwrap();
    assert_eq!(instance.environment.as_ref().unwrap().name, "production");
    assert!(matches!(instance.permissions, Some(Permissions::Scoped(_))));
}

#[test]
fn local_reusable_uses_awaits_cold_path_resolution() {
    let wf = workflow(
        "local_reusable.yml",
        r#"
name: LocalReusable
on: push
jobs:
  call-it:
    uses: ./.github/workflows/reusable.yml
"#,
    );
    let job = wf.jobs.get("call-it").unwrap();
    assert_eq!(job.support, SupportTier::Supported);
    assert!(job.deferred_reasons.is_empty());
    assert_eq!(job.uses.as_deref(), Some("./.github/workflows/reusable.yml"));
}

#[test]
fn scan_workflow_flags_syntax_error_in_step_run() {
    let wf = workflow(
        "bad.yml",
        r#"
name: N
on: push
jobs:
  build:
    runs-on: ubuntu-latest
    steps:
      - run: echo ${{ github.sha
"#,
    );
    let (bindings, findings) = scan_workflow(&wf);
    assert!(bindings.is_empty());
    assert!(findings.iter().any(|f| f.code == "GHA_EXPR_SYNTAX"));
}

#[test]
fn scan_workflow_finds_binding_in_job_if_condition() {
    let wf = workflow(
        "n.yml",
        r#"
name: N
on: push
jobs:
  build:
    runs-on: ubuntu-latest
    outputs:
      ok: "true"
    steps:
      - run: echo build
  deploy:
    runs-on: ubuntu-latest
    needs: [build]
    if: ${{ needs.build.outputs.ok == 'true' }}
    steps:
      - run: echo deploy
"#,
    );
    let (bindings, findings) = scan_workflow(&wf);
    assert!(findings.is_empty());
    assert!(bindings.iter().any(|b| b.consumer_job == "deploy"
        && b.producer_job == "build"
        && b.output_name == "ok"
        && b.raw == "needs.build.outputs.ok"));
}

#[test]
fn scan_workflow_ignores_expressions_without_needs_outputs() {
    let wf = workflow(
        "n.yml",
        r#"
name: N
on: push
jobs:
  build:
    runs-on: ubuntu-latest
    steps:
      - run: echo ${{ github.sha }}
"#,
    );
    let (bindings, findings) = scan_workflow(&wf);
    assert!(bindings.is_empty());
    assert!(findings.is_empty());
}

#[test]
fn scan_workflow_finds_bindings_in_step_with_and_env_and_strategy() {
    let wf = workflow(
        "bindings.yml",
        r#"
jobs:
  build:
    runs-on: ubuntu-latest
    outputs:
      artifact: value
      region: value
      lane: value
    steps:
      - run: echo build
  deploy:
    needs: build
    runs-on: ubuntu-latest
    strategy:
      matrix:
        lane: ["${{ needs.build.outputs.lane }}"]
    steps:
      - uses: example/action@v1
        with:
          artifact: "${{ needs.build.outputs.artifact }}"
        env:
          REGION: "${{ needs.build.outputs.region }}"
"#,
    );
    let (bindings, findings) = scan_workflow(&wf);
    assert!(findings.is_empty());
    for output in ["artifact", "region", "lane"] {
        assert!(
            bindings.iter().any(|binding| binding.consumer_job.starts_with("deploy")
                && binding.producer_job == "build"
                && binding.output_name == output),
            "missing binding for {output}"
        );
    }
}

#[test]
fn scalar_and_sequence_on_values_enable_named_triggers() {
    let scalar = workflow("push.yml", "on: push\njobs: {}\n");
    assert!(scalar.triggers.push.is_some());
    let sequence = workflow("events.yml", "on: [pull_request, workflow_dispatch]\njobs: {}\n");
    assert!(sequence.triggers.pull_request.is_some());
    assert!(sequence.triggers.workflow_dispatch.is_some());
}

// Matrix expansion on a `strategy` block.

fn matrix_yaml(body: &str) -> Yaml {
    yaml_of(serde_yaml::from_str(body).unwrap())
}

fn combo_has(c: &StrMap<String>, k: &str, v: &str) -> bool {
    c.get(k).map(String::as_str) == Some(v)
}

#[test]
fn no_strategy_yields_none() {
    assert!(expand_matrix(None).unwrap().is_none());
}

#[test]
fn strategy_without_matrix_yields_none() {
    let strategy = matrix_yaml("fail-fast: false\n");
    assert!(expand_matrix(Some(&strategy)).unwrap().is_none());
}

#[test]
fn two_axis_cartesian_product() {
    let strategy = matrix_yaml("matrix:\n  node: [18, 20]\n  os: [ubuntu-latest, windows-latest]\n");
    let expansion = expand_matrix(Some(&strategy)).unwrap().unwrap();
    assert_eq!(expansion.combos.len(), 4);
    assert_eq!(expansion.total_before_cap, 4);
    assert!(expansion
        .combos
        .iter()
        .any(|c| combo_has(c, "node", "18") && combo_has(c, "os", "ubuntu-latest")));
}

#[test]
fn include_merges_into_matching_and_appends_new() {
    let strategy = matrix_yaml(
        "matrix:\n  fruit: [apple, pear]\n  include:\n    - color: green\n    - fruit: banana\n      color: yellow\n",
    );
    let expansion = expand_matrix(Some(&strategy)).unwrap().unwrap();
    assert_eq!(expansion.combos.len(), 3);
    assert!(expansion.combos.iter().any(|c| combo_has(c, "fruit", "apple") && combo_has(c, "color", "green")));
    assert!(expansion.combos.iter().any(|c| combo_has(c, "fruit", "pear") && combo_has(c, "color", "green")));
    assert!(expansion.combos.iter().any(|c| combo_has(c, "fruit", "banana") && combo_has(c, "color", "yellow")));
}

#[test]
fn include_only_matrix_creates_one_combo_per_entry() {
    let strategy = matrix_yaml("matrix:\n  include:\n    - node: 18\n    - node: 20\n");
    let expansion = expand_matrix(Some(&strategy)).unwrap().unwrap();
    assert_eq!(expansion.combos.len(), 2);
}

#[test]
fn matrix_exclude_drops_matching_combo() {
    let strategy = matrix_yaml(
        "matrix:\n  os: [ubuntu-latest, windows-latest]\n  node: [18, 20]\n  exclude:\n    - os: windows-latest\n      node: 18\n",
    );
    let expansion = expand_matrix(Some(&strategy)).unwrap().unwrap();
    assert_eq!(expansion.combos.len(), 3);
    assert!(!expansion
        .combos
        .iter()
        .any(|c| combo_has(c, "os", "windows-latest") && combo_has(c, "node", "18")));
}

#[test]
fn exclude_of_every_combo_yields_empty() {
    let strategy = matrix_yaml("matrix:\n  node: [18]\n  exclude:\n    - node: 18\n");
    let expansion = expand_matrix(Some(&strategy)).unwrap().unwrap();
    assert!(expansion.combos.is_empty());
}

#[test]
fn oversize_matrix_is_capped() {
    let strategy = matrix_yaml("matrix:\n  a: [1, 2, 3, 4, 5, 6, 7, 8, 9, 10, 11, 12, 13, 14, 15, 16]\n  b: [1, 2, 3, 4, 5, 6, 7, 8, 9, 10, 11, 12, 13, 14, 15, 16, 17, 18, 19, 20]\n");
    let expansion = expand_matrix(Some(&strategy)).unwrap().unwrap();
    assert_eq!(expansion.total_before_cap, 320);
    assert_eq!(expansion.combos.len(), MAX_INSTANCES);
}

#[test]
fn expression_valued_matrix_is_unsupported() {
    let strategy = matrix_yaml("matrix: \"${{ fromJson(needs.setup.outputs.matrix) }}\"\n");
    let err = expand_matrix(Some(&strategy)).unwrap_err();
    assert!(matches!(err, MatrixError::Unsupported(_)));
}

#[test]
fn non_scalar_axis_value_is_unsupported() {
    let strategy = matrix_yaml("matrix:\n  config:\n    - name: a\n      value: 1\n");
    let err = expand_matrix(Some(&strategy)).unwrap_err();
    assert!(matches!(err, MatrixError::Unsupported(_)));
}

#[test]
fn mapping_runs_on_falls_back_to_none() {
    let wf = workflow(
        "group.yml",
        r#"
name: GroupRunner
on: push
jobs:
  build:
    runs-on:
      group: ubuntu-runners
    steps:
      - run: echo hi
"#,
    );
    let job = wf.jobs.get("build").unwrap();
    assert_eq!(job.support, SupportTier::Deferred);
    assert_eq!(job.runs_on.as_deref(), Some("ubuntu-runners"));
}

// Job graphs of small inline workflows.

const CHAIN: &str = r#"
name: N
on: push
jobs:
  a:
    runs-on: ubuntu-latest
    steps: [{run: echo a}]
  b:
    runs-on: ubuntu-latest
    needs: a
    steps: [{run: echo b}]
  c:
    runs-on: ubuntu-latest
    needs: [a, b]
    steps: [{run: echo c}]
"#;

#[test]
fn happy_graph_has_no_findings() {
    let wf = workflow("n.yml", CHAIN);
    let (graph, findings) = build_job_graph(&wf);
    assert!(findings.is_empty());
    assert_eq!(graph.graph.edge_count(), 3);
}

#[test]
fn topo_levels_orders_roots_before_dependents() {
    let wf = workflow("n.yml", CHAIN);
    let (graph, _findings) = build_job_graph(&wf);
    let levels = topo_levels(&graph);
    assert_eq!(levels, vec![vec!["a".to_string()], vec!["b".to_string()], vec!["c".to_string()]]);
}

#[test]
fn topo_levels_groups_independent_roots_together() {
    let wf = workflow(
        "n.yml",
        r#"
name: N
on: push
jobs:
  a:
    runs-on: ubuntu-latest
    steps: [{run: echo a}]
  b:
    runs-on: ubuntu-latest
    steps: [{run: echo b}]
  c:
    runs-on: ubuntu-latest
    needs: [a, b]
    steps: [{run: echo c}]
"#,
    );
    let (graph, _findings) = build_job_graph(&wf);
    let levels = topo_levels(&graph);
    assert_eq!(levels, vec![vec!["a".to_string(), "b".to_string()], vec!["c".to_string()]]);
}

#[test]
fn normalizes_common_trigger_shapes() {
    let workflow = workflow(
        "triggers.yml",
        r#"
name: Triggers
on:
  push:
    branches: [main, "release/**"]
    branches-ignore: [wip]
    tags: ["v*"]
  pull_request:
    types: [opened, synchronize]
  schedule:
    - cron: "0 4 * * 1"
  workflow_dispatch:
    inputs:
      environment:
        description: Deploy target
        required: true
        default: staging
        type: choice
        options: [staging, production]
  workflow_call:
    inputs:
      dry_run:
        required: false
        default: true
        type: boolean
jobs:
  build:
    runs-on: ubuntu-latest
    steps:
      - run: echo hi
"#,
    );
    let push = workflow.triggers.push.as_ref().unwrap();
    assert_eq!(push.branches, vec!["main", "release/**"]);
    assert_eq!(push.branches_ignore, vec!["wip"]);
    assert_eq!(push.tags, vec!["v*"]);
    assert_eq!(workflow.triggers.pull_request.as_ref().unwrap().types, vec!["opened", "synchronize"]);
    assert_eq!(workflow.triggers.schedules[0].cron, "0 4 * * 1");

    let dispatch = workflow.triggers.workflow_dispatch.as_ref().unwrap();
    let environment = dispatch.inputs.get("environment").unwrap();
    assert_eq!(environment.description.as_deref(), Some("Deploy target"));
    assert!(environment.required);
    assert_eq!(environment.default.as_deref(), Some("staging"));
    assert_eq!(environment.input_type.as_deref(), Some("choice"));
    assert_eq!(environment.options, vec!["staging", "production"]);

    let call = workflow.triggers.workflow_call.as_ref().unwrap();
    assert_eq!(call.inputs.get("dry_run").unwrap().default.as_deref(), Some("true"));
    assert_eq!(call.inputs.get("dry_run").unwrap().input_type.as_deref(), Some("boolean"));
}

// Scenarios of the command-line tool's sample workflows, written inline.

const CYCLE: &str = r#"
name: Cycle
on: push
jobs:
  a:
    runs-on: ubuntu-latest
    needs: b
    steps: [{run: echo a}]
  b:
    runs-on: ubuntu-latest
    needs: a
    steps: [{run: echo b}]
"#;

const HAPPY: &str = r#"
name: Happy
on: push
jobs:
  build:
    runs-on: ubuntu-latest
    steps:
      - run: echo hello
"#;

const MATRIX_2AXIS: &str = r#"
name: Matrix
on: push
jobs:
  test:
    runs-on: ${{ matrix.os }}
    if: matrix.node == 18
    strategy:
      matrix:
        node: [18, 20]
        os: [ubuntu-latest, windows-latest]
    steps:
      - run: echo ${{ matrix.node }}
"#;

const MATRIX_NEEDS: &str = r#"
name: MatrixNeeds
on: push
jobs:
  build:
    runs-on: ubuntu-latest
    strategy:
      matrix:
        node: [18, 20]
    steps: [{run: echo build}]
  deploy:
    runs-on: ubuntu-latest
    needs: build
    steps: [{run: echo deploy}]
"#;

const SKIP_IF: &str = r#"
name: SkipIf
on: [push, pull_request]
jobs:
  pr-only:
    if: github.event_name == 'pull_request'
    runs-on: ubuntu-latest
    steps: [{run: echo pr}]
  always-push:
    if: github.event_name == 'push'
    runs-on: ubuntu-latest
    steps: [{run: echo push}]
"#;

#[test]
fn detects_cycle() {
    let wf = workflow("cycle.yml", CYCLE);
    let (graph, findings) = build_job_graph(&wf);
    assert!(findings.iter().any(|f| f.code == "GHA_CYCLE"));
    assert_eq!(graph.nodes.len(), 2);
    assert!(graph.nodes.contains_key("a"));
    assert!(graph.nodes.contains_key("b"));
}

#[test]
fn detects_missing_need() {
    let wf = workflow(
        "bad_needs.yml",
        r#"
name: BadNeeds
on: push
jobs:
  build:
    runs-on: ubuntu-latest
    needs: missing
    steps: [{run: echo build}]
"#,
    );
    let (graph, findings) = build_job_graph(&wf);
    assert!(findings.iter().any(|f| f.code == "GHA_MISSING_NEED"));
    assert_eq!(graph.nodes.len(), 1);
    assert!(graph.nodes.contains_key("build"));
}

#[test]
fn topo_levels_omits_cyclic_jobs() {
    let wf = workflow("cycle.yml", CYCLE);
    let (graph, _findings) = build_job_graph(&wf);
    assert!(topo_levels(&graph).is_empty());
}

#[test]
fn happy_job_supported() {
    let wf = workflow("happy.yml", HAPPY);
    let job = wf.jobs.get("build").unwrap();
    assert_eq!(job.support, SupportTier::Supported);
    assert!(job.deferred_reasons.is_empty());
    assert_eq!(job.runs_on.as_deref(), Some("ubuntu-latest"));
    assert_eq!(wf.instances.len(), 1);
    let instance = wf.instances.get("build").unwrap();
    assert_eq!(instance.instance_id, "build");
    assert_eq!(instance.base_id, "build");
    assert!(instance.matrix.is_empty());
}

#[test]
fn jobs_without_strategy_get_a_single_instance_matching_the_base_id() {
    let wf = workflow("happy.yml", HAPPY);
    assert_eq!(wf.instances.len(), 1);
    let instance = wf.instances.get("build").unwrap();
    assert_eq!(instance.instance_id, "build");
    assert_eq!(instance.base_id, "build");
    assert!(instance.matrix.is_empty());
}

#[test]
fn two_axis_matrix_expands_into_four_instances() {
    let wf = workflow("matrix_2axis.yml", MATRIX_2AXIS);
    assert_eq!(wf.instances.len(), 4);
    for id in [
        "test (node=18, os=ubuntu-latest)",
        "test (node=18, os=windows-latest)",
        "test (node=20, os=ubuntu-latest)",
        "test (node=20, os=windows-latest)",
    ] {
        let instance = wf.instances.get(id).unwrap_or_else(|| panic!("missing instance {id}"));
        assert_eq!(instance.support, SupportTier::Supported);
        assert_eq!(instance.base_id, "test");
    }
}

#[test]
fn matrix_condition_skips_non_matching_instances_only() {
    let wf = workflow("matrix_2axis.yml", MATRIX_2AXIS);
    let ctx = EvalContext::default_mock();
    assert_eq!(state_of(&wf, &ctx, "test (node=18, os=ubuntu-latest)"), RunState::WillRun);
    assert_eq!(state_of(&wf, &ctx, "test (node=18, os=windows-latest)"), RunState::WillRun);
    assert_eq!(state_of(&wf, &ctx, "test (node=20, os=ubuntu-latest)"), RunState::Skipped);
    assert_eq!(state_of(&wf, &ctx, "test (node=20, os=windows-latest)"), RunState::Skipped);
}

#[test]
fn matrix_instances_get_independent_run_states() {
    let wf = workflow(
        "deferred_matrix.yml",
        r#"
name: DeferredMatrix
on: push
jobs:
  test:
    runs-on: ubuntu-latest
    strategy:
      matrix:
        node: [18, 20]
    steps: [{run: echo hi}]
"#,
    );
    let ctx = EvalContext::default_mock();
    assert_eq!(state_of(&wf, &ctx, "test (node=18)"), RunState::WillRun);
    assert_eq!(state_of(&wf, &ctx, "test (node=20)"), RunState::WillRun);
}

#[test]
fn include_merges_into_matching_combos_and_appends_new_one() {
    let wf = workflow(
        "matrix_include.yml",
        r#"
name: Include
on: push
jobs:
  test:
    runs-on: ubuntu-latest
    strategy:
      matrix:
        fruit: [apple, pear]
        include:
          - color: green
          - fruit: banana
            color: yellow
    steps: [{run: echo hi}]
"#,
    );
    assert_eq!(wf.instances.len(), 3);
    assert!(wf.instances.contains_key("test (color=green, fruit=apple)"));
    assert!(wf.instances.contains_key("test (color=green, fruit=pear)"));
    assert!(wf.instances.contains_key("test (color=yellow, fruit=banana)"));
}

#[test]
fn matrix_test_exclude_drops_matching_combo() {
    let wf = workflow(
        "matrix_exclude.yml",
        r#"
name: Exclude
on: push
jobs:
  test:
    runs-on: ubuntu-latest
    strategy:
      matrix:
        os: [ubuntu-latest, windows-latest]
        node: [18, 20]
        exclude:
          - os: windows-latest
            node: 18
    steps: [{run: echo hi}]
"#,
    );
    assert_eq!(wf.instances.len(), 3);
    assert!(!wf.instances.contains_key("test (node=18, os=windows-latest)"));
    assert!(wf.instances.contains_key("test (node=20, os=windows-latest)"));
    assert!(wf.instances.contains_key("test (node=18, os=ubuntu-latest)"));
    assert!(wf.instances.contains_key("test (node=20, os=ubuntu-latest)"));
}

#[test]
fn empty_after_exclude_falls_back_to_single_deferred_instance_with_finding() {
    let wf = workflow(
        "matrix_empty.yml",
        r#"
name: Empty
on: push
jobs:
  test:
    runs-on: ubuntu-latest
    strategy:
      matrix:
        node: [18]
        exclude:
          - node: 18
    steps: [{run: echo hi}]
"#,
    );
    let mut findings = Vec::new();
    collect_matrix_findings(&wf, &mut findings);
    assert!(findings.iter().any(|f| f.code == "GHA_MATRIX_EMPTY"));
    assert_eq!(state_of(&wf, &EvalContext::default_mock(), "test"), RunState::Deferred);
}

#[test]
fn oversize_matrix_is_capped_at_256_with_finding() {
    let wf = workflow(
        "matrix_cap.yml",
        r#"
name: Cap
on: push
jobs:
  test:
    runs-on: ubuntu-latest
    strategy:
      matrix:
        a: [1, 2, 3, 4, 5, 6, 7, 8, 9, 10, 11, 12, 13, 14, 15, 16]
        b: [1, 2, 3, 4, 5, 6, 7, 8, 9, 10, 11, 12, 13, 14, 15, 16, 17, 18, 19, 20]
    steps: [{run: echo hi}]
"#,
    );
    let mut findings = Vec::new();
    collect_matrix_findings(&wf, &mut findings);
    let cap = findings.iter().find(|f| f.code == "GHA_MATRIX_CAP").expect("oversize matrix should raise GHA_MATRIX_CAP");
    assert!(cap.message.contains("320"));
    assert_eq!(wf.instances.len(), 256);
}

#[test]
fn dynamic_matrix_is_unsupported_and_stays_deferred() {
    let wf = workflow(
        "matrix_unsupported.yml",
        r#"
name: Unsupported
on: push
jobs:
  test:
    runs-on: ubuntu-latest
    strategy:
      matrix: ${{ fromJson(needs.setup.outputs.matrix) }}
    steps: [{run: echo hi}]
"#,
    );
    let mut findings = Vec::new();
    collect_matrix_findings(&wf, &mut findings);
    let finding = findings
        .iter()
        .find(|f| f.code == "GHA_MATRIX_UNSUPPORTED")
        .expect("dynamic matrix should raise GHA_MATRIX_UNSUPPORTED");
    assert_eq!(finding.severity, gha_see::findings::Severity::Info);
    assert_eq!(state_of(&wf, &EvalContext::default_mock(), "test"), RunState::Deferred);
}

#[test]
fn needs_on_matrix_job_fans_out_to_every_instance() {
    let wf = workflow("matrix_needs.yml", MATRIX_NEEDS);
    let (graph, findings) = build_job_graph(&wf);
    assert!(findings.is_empty());
    assert_eq!(graph.graph.edge_count(), 2);
    assert_eq!(graph.nodes.len(), 3);
    assert!(graph.nodes.contains_key("build (node=18)"));
    assert!(graph.nodes.contains_key("build (node=20)"));
    assert!(graph.nodes.contains_key("deploy"));
}

#[test]
fn deploy_waits_on_all_matrix_instances_of_build() {
    let wf = workflow("matrix_needs.yml", MATRIX_NEEDS);
    let ctx = EvalContext::default_mock();
    assert_eq!(state_of(&wf, &ctx, "build (node=18)"), RunState::WillRun);
    assert_eq!(state_of(&wf, &ctx, "build (node=20)"), RunState::WillRun);
    assert_eq!(state_of(&wf, &ctx, "deploy"), RunState::WillRun);
}

#[test]
fn skips_pr_job_on_push_context() {
    let wf = workflow("skip_if.yml", SKIP_IF);
    let ctx = EvalContext { event_name: "push".to_string(), ..EvalContext::default_mock() };
    let (states, findings) = evaluate(&wf, &ctx, &no_hash);
    assert_eq!(*states.get("pr-only").unwrap(), RunState::Skipped);
    assert_eq!(*states.get("always-push").unwrap(), RunState::WillRun);
    assert!(findings.iter().any(|f| f.code == "GHA_COND_SKIP"));
}

#[test]
fn runs_pr_job_on_pull_request_context() {
    let wf = workflow("skip_if.yml", SKIP_IF);
    let ctx = EvalContext { event_name: "pull_request".to_string(), ..EvalContext::default_mock() };
    let (states, _findings) = evaluate(&wf, &ctx, &no_hash);
    assert_eq!(*states.get("pr-only").unwrap(), RunState::WillRun);
    assert_eq!(*states.get("always-push").unwrap(), RunState::Skipped);
}

#[test]
fn traces_needs_outputs_binding() {
    let wf = workflow(
        "outputs_trace.yml",
        r#"
name: OutputsTrace
on: push
jobs:
  build:
    runs-on: ubuntu-latest
    outputs:
      artifact-id: ${{ steps.upload.outputs.id }}
    steps:
      - id: upload
        run: echo "id=42" >> "$GITHUB_OUTPUT"
  test:
    runs-on: ubuntu-latest
    needs: build
    steps:
      - run: echo ${{ needs.build.outputs.artifact-id }}
"#,
    );
    let (bindings, findings) = scan_workflow(&wf);
    assert!(findings.is_empty());
    assert!(bindings
        .iter()
        .any(|b| b.producer_job == "build" && b.output_name == "artifact-id" && b.consumer_job == "test"));
}

#[test]
fn closing_delimiter_before_any_open_is_unbalanced() {
    assert!(gha_see::expr::unbalanced_expression("}} ${{"));
    assert!(!gha_see::expr::unbalanced_expression("${{ a }} ${{ b }}"));
}

#[test]
fn syntax_finding_is_a_warning() {
    let wf = workflow(
        "bad.yml",
        "jobs:\n  build:\n    runs-on: ubuntu-latest\n    steps:\n      - run: echo ${{ github.sha\n",
    );
    let (bindings, findings) = scan_workflow(&wf);
    assert!(bindings.is_empty());
    assert_eq!(findings.len(), 1);
    assert_eq!(findings[0].severity, gha_see::findings::Severity::Warning);
}

#[test]
fn hash_files_asks_the_hasher_once_per_root_and_patterns() {
    let wf = workflow(
        "h.yml",
        r#"
name: H
on: push
jobs:
  a:
    if: hashFiles('**/x') == 'abc'
    runs-on: ubuntu-latest
    steps:
      - if: hashFiles('**/x') != 'abc'
        run: echo never
  b:
    if: hashFiles('**/y') == 'abc'
    runs-on: ubuntu-latest
    steps: [{run: echo b}]
"#,
    );
    let calls = std::cell::Cell::new(0usize);
    let hasher = |_root: String, patterns: Vec<String>| -> Option<String> {
        calls.set(calls.get() + 1);
        if patterns == vec!["**/x".to_string()] {
            Some("abc".to_string())
        } else {
            Some(format!("digest {}", calls.get()))
        }
    };
    let ctx = EvalContext { repo_root: Some("/repo".to_string()), ..EvalContext::default_mock() };
    let (states, _findings) = evaluate(&wf, &ctx, &hasher);
    assert_eq!(calls.get(), 2);
    assert_eq!(*states.get("a").unwrap(), RunState::WillRun);
    assert_eq!(*states.get("a#0").unwrap(), RunState::Skipped);
    assert_eq!(*states.get("b").unwrap(), RunState::Skipped);
}

#[test]
fn to_json_escapes_quotes_backslashes_and_controls() {
    // In the expression language a backslash takes the next character
    // literally, so `\\` stands for one backslash.
    let conds = [
        r#"'toJSON(''a"b'') == ''"a\\"b"'''"#,
        r#"'toJSON(''a\\b'') == ''"a\\\\b"'''"#,
        r#"'toJSON(''ab'') == ''"ab"'''"#,
        r#"'contains(toJSON(''a"b''), ''\\'')'"#,
        r#"'contains(toJSON(''a"b''), ''a'')'"#,
    ];
    let ctx = EvalContext::default_mock();
    let mut got = Vec::new();
    for c in conds {
        let wf = workflow(
            "j.yml",
            &format!("name: J\non: push\njobs:\n  q:\n    if: {c}\n    runs-on: ubuntu-latest\n    steps: [{{run: echo q}}]\n"),
        );
        got.push(state_of(&wf, &ctx, "q"));
    }
    assert_eq!(got, vec![RunState::WillRun; 5]);
}
