use gha_see::graph::{build_job_graph, graph_fits, topo_levels};
use gha_see::ir::{normalize, WorkflowFile};
use gha_see::parse::{RawJob, RawWorkflow};
use gha_see::yaml::Yaml;

fn job(needs: &[&str]) -> RawJob {
    RawJob {
        runs_on: Some(Yaml::Str("ubuntu-latest".to_string())),
        needs: needs.iter().map(|s| s.to_string()).collect(),
        condition: None,
        outputs: vec![],
        steps: vec![],
        env: vec![],
        concurrency: None,
        services: vec![],
        permissions: None,
        environment: None,
        defaults: None,
        strategy: None,
        strategy_text: None,
        uses: None,
        with_inputs: vec![],
        extra: vec![],
    }
}

fn workflow(jobs: Vec<(&str, RawJob)>) -> WorkflowFile {
    let raw = RawWorkflow {
        name: Some("W".to_string()),
        on: Yaml::Str("push".to_string()),
        concurrency: None,
        permissions: None,
        defaults: None,
        jobs: jobs.into_iter().map(|(k, j)| (k.to_string(), j)).collect(),
        extra: vec![],
    };
    normalize("w.yml".to_string(), raw)
}

#[test]
fn chain_of_needs_gives_one_level_per_job() {
    let wf = workflow(vec![("c", job(&["b"])), ("a", job(&[])), ("b", job(&["a"]))]);
    assert!(graph_fits(&wf));
    let (graph, findings) = build_job_graph(&wf);
    assert!(findings.is_empty());
    let levels = topo_levels(&graph);
    assert_eq!(levels, vec![vec!["a".to_string()], vec!["b".to_string()], vec!["c".to_string()]]);
}

#[test]
fn roots_share_the_first_level_sorted() {
    let wf = workflow(vec![("z", job(&[])), ("m", job(&[])), ("end", job(&["z", "m"]))]);
    let (graph, findings) = build_job_graph(&wf);
    assert!(findings.is_empty());
    let levels = topo_levels(&graph);
    assert_eq!(levels, vec![vec!["m".to_string(), "z".to_string()], vec!["end".to_string()]]);
}

#[test]
fn missing_need_is_reported_once_per_job_and_name() {
    let wf = workflow(vec![("b", job(&["x", "x"])), ("a", job(&["x"]))]);
    let (_graph, findings) = build_job_graph(&wf);
    let missing: Vec<_> = findings.iter().filter(|f| f.code == "GHA_MISSING_NEED").collect();
    assert_eq!(missing.len(), 2);
    assert_eq!(missing[0].message, "Job `a` needs `x`, which doesn't exist in this workflow");
    assert_eq!(missing[1].message, "Job `b` needs `x`, which doesn't exist in this workflow");
}

#[test]
fn two_job_cycle_is_one_sorted_cycle_finding() {
    let wf = workflow(vec![("b", job(&["a"])), ("a", job(&["b"])), ("c", job(&[]))]);
    let (graph, findings) = build_job_graph(&wf);
    assert_eq!(findings.len(), 1);
    assert_eq!(findings[0].code, "GHA_CYCLE");
    assert_eq!(findings[0].message, "Dependency cycle detected among jobs: a -> b");
    let levels = topo_levels(&graph);
    assert_eq!(levels, vec![vec!["c".to_string()]]);
}

#[test]
fn self_need_is_a_cycle() {
    let wf = workflow(vec![("a", job(&["a"]))]);
    let (graph, findings) = build_job_graph(&wf);
    assert_eq!(findings.len(), 1);
    assert_eq!(findings[0].code, "GHA_CYCLE");
    assert_eq!(findings[0].message, "Dependency cycle detected among jobs: a");
    assert!(topo_levels(&graph).is_empty());
}

#[test]
fn graph_nodes_are_instances_in_id_order() {
    let wf = workflow(vec![("b", job(&["a"])), ("a", job(&[]))]);
    let (graph, _) = build_job_graph(&wf);
    assert_eq!(graph.nodes.len(), 2);
    assert_eq!(graph.nodes.key_at(0), "a");
    assert_eq!(*graph.nodes.value_at(0), 0);
    assert_eq!(graph.nodes.key_at(1), "b");
    assert_eq!(graph.graph.edge_count(), 1);
}
