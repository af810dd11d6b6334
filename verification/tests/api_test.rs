use gha_see::api::{entry_kind, is_workflow_name, kind_rank, mime_for_extension, sort_entries, FsEntry};
use gha_see::discover::sort_paths;

#[test]
fn workflow_names_by_extension() {
    assert!(is_workflow_name("ci.yml"));
    assert!(is_workflow_name("ci.yaml"));
    assert!(is_workflow_name("a.tar.yml"));
    assert!(!is_workflow_name(".yml"));
    assert!(!is_workflow_name("ci.yml.bak"));
    assert!(!is_workflow_name("README"));
}

#[test]
fn entry_kinds_and_ranks() {
    assert_eq!(entry_kind(true, "x.yml"), "dir");
    assert_eq!(entry_kind(false, "x.yml"), "workflow");
    assert_eq!(entry_kind(false, "x.txt"), "file");
    assert_eq!(kind_rank("dir"), 0);
    assert_eq!(kind_rank("workflow"), 1);
    assert_eq!(kind_rank("other"), 2);
}

fn entry(name: &str, kind: &str) -> FsEntry {
    FsEntry { name: name.to_string(), path: format!("/r/{name}"), kind: kind.to_string() }
}

#[test]
fn listing_orders_dirs_then_workflows_then_files_by_name() {
    let sorted = sort_entries(vec![
        entry("b.txt", "file"),
        entry("z", "dir"),
        entry("ci.yml", "workflow"),
        entry("a", "dir"),
        entry("a.txt", "file"),
    ]);
    let names: Vec<&str> = sorted.iter().map(|e| e.name.as_str()).collect();
    assert_eq!(names, vec!["a", "z", "ci.yml", "a.txt", "b.txt"]);
}

#[test]
fn mime_types_by_extension() {
    assert_eq!(mime_for_extension("js"), "application/javascript");
    assert_eq!(mime_for_extension("map"), "application/json");
    assert_eq!(mime_for_extension("bin"), "application/octet-stream");
}

#[test]
fn discovered_paths_are_sorted() {
    let sorted = sort_paths(vec!["w/b.yml".to_string(), "w/a.yml".to_string()]);
    assert_eq!(sorted, vec!["w/a.yml".to_string(), "w/b.yml".to_string()]);
}
