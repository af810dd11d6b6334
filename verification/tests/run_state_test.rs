use gha_see::eval::{evaluate, EvalContext, RunState};
use gha_see::ir::{normalize, WorkflowFile};
use gha_see::parse::{RawJob, RawStep, RawWorkflow};
use gha_see::yaml::Yaml;

fn job(needs: &[&str], condition: Option<&str>) -> RawJob {
    RawJob {
        runs_on: Some(Yaml::Str("ubuntu-latest".to_string())),
        needs: needs.iter().map(|s| s.to_string()).collect(),
        condition: condition.map(|c| c.to_string()),
        outputs: vec![],
        steps: vec![RawStep {
            name: None,
            id: None,
            uses: None,
            run: Some("echo hi".to_string()),
            shell: None,
            working_directory: None,
            condition: None,
            with_inputs: vec![],
            env: vec![],
            extra: vec![],
        }],
        env: vec![],
        concurrency: None,
        services: vec![],
        permissions: None,
        environment: None,
        defaults: None,
        strategy: None,
        strategy_text: None,
        uses: None,
        with_inputs: vec![],
        extra: vec![],
    }
}

fn workflow(jobs: Vec<(&str, RawJob)>) -> WorkflowFile {
    let raw = RawWorkflow {
        name: None,
        on: Yaml::Str("push".to_string()),
        concurrency: None,
        permissions: None,
        defaults: None,
        jobs: jobs.into_iter().map(|(k, j)| (k.to_string(), j)).collect(),
        extra: vec![],
    };
    normalize("r.yml".to_string(), raw)
}

fn no_hash(_root: String, _patterns: Vec<String>) -> Option<String> {
    None
}

fn state(states: &gha_see::smap::StrMap<RunState>, key: &str) -> RunState {
    *states.get(key).expect("state recorded")
}

#[test]
fn job_without_condition_runs() {
    let wf = workflow(vec![("build", job(&[], None))]);
    let ctx = EvalContext::default_mock();
    let (states, findings) = evaluate(&wf, &ctx, &no_hash);
    assert_eq!(state(&states, "build"), RunState::WillRun);
    assert_eq!(state(&states, "build#0"), RunState::WillRun);
    assert!(findings.is_empty());
}

#[test]
fn skipped_upstream_skips_dependent_whatever_its_condition() {
    let wf = workflow(vec![
        ("pr", job(&[], Some("github.event_name == 'pull_request'"))),
        ("after", job(&["pr"], Some("true"))),
    ]);
    let ctx = EvalContext::default_mock();
    let (states, findings) = evaluate(&wf, &ctx, &no_hash);
    assert_eq!(state(&states, "pr"), RunState::Skipped);
    assert_eq!(state(&states, "after"), RunState::Skipped);
    assert_eq!(state(&states, "after#0"), RunState::Skipped);
    assert_eq!(findings.len(), 1);
    assert_eq!(findings[0].code, "GHA_COND_SKIP");
}

#[test]
fn undecided_upstream_leaves_dependent_undecided() {
    let wf = workflow(vec![("odd", job(&[], Some("someUnknownFn()"))), ("next", job(&["odd"], None))]);
    let ctx = EvalContext::default_mock();
    let (states, findings) = evaluate(&wf, &ctx, &no_hash);
    assert_eq!(state(&states, "odd"), RunState::Unknown);
    assert_eq!(state(&states, "next"), RunState::Unknown);
    assert!(findings.iter().any(|f| f.code == "GHA_COND_UNKNOWN"));
}

#[test]
fn pull_request_job_runs_on_pull_request_context() {
    let wf = workflow(vec![("pr", job(&[], Some("${{ github.event_name == 'pull_request' }}")))]);
    let mut ctx = EvalContext::default_mock();
    ctx.event_name = "pull_request".to_string();
    let (states, findings) = evaluate(&wf, &ctx, &no_hash);
    assert_eq!(state(&states, "pr"), RunState::WillRun);
    assert!(findings.is_empty());
}

#[test]
fn status_functions_and_boolean_operators() {
    let cases = [
        ("success()", RunState::WillRun),
        ("always()", RunState::WillRun),
        ("failure()", RunState::Skipped),
        ("cancelled()", RunState::Skipped),
        ("!(false) && (true || false)", RunState::WillRun),
        ("false", RunState::Skipped),
    ];
    for (condition, expected) in cases {
        let wf = workflow(vec![("j", job(&[], Some(condition)))]);
        let ctx = EvalContext::default_mock();
        let (states, _) = evaluate(&wf, &ctx, &no_hash);
        assert_eq!(state(&states, "j"), expected, "condition {condition}");
    }
}

fn mapping(entries: Vec<(&str, Yaml)>) -> Yaml {
    Yaml::Mapping(entries.into_iter().map(|(k, v)| (Yaml::Str(k.to_string()), v)).collect(), String::new())
}

fn list(items: &[&str]) -> Yaml {
    Yaml::List(items.iter().map(|s| Yaml::Str(s.to_string())).collect(), String::new())
}

#[test]
fn two_axis_matrix_gives_four_instances_each_with_a_state() {
    let mut j = job(&[], None);
    j.strategy = Some(mapping(vec![("matrix", mapping(vec![("os", list(&["a", "b"])), ("node", list(&["1", "2"]))]))]));
    let wf = workflow(vec![("t", j), ("deploy", job(&["t"], None))]);
    assert_eq!(wf.instances.len(), 5);
    assert!(wf.instances.get("t (os=a, node=1)").is_some() || wf.instances.get("t (node=1, os=a)").is_some());
    let (graph, findings) = gha_see::graph::build_job_graph(&wf);
    assert!(findings.is_empty());
    assert_eq!(graph.graph.edge_count(), 4);
    let ctx = EvalContext::default_mock();
    let (states, _) = evaluate(&wf, &ctx, &no_hash);
    assert_eq!(state(&states, "deploy"), RunState::WillRun);
}
