use gha_see::analysis::{is_condition_finding, scratch_path, split_state_key, structural_findings, yaml_remotes};
use gha_see::findings::{condition_skips, condition_unknown, deferred, trigger_filter, FindingTarget};
use gha_see::yaml::Yaml;

fn target() -> FindingTarget {
    FindingTarget::File("w.yml".to_string())
}

#[test]
fn condition_findings_are_dropped_on_reevaluation() {
    let fs = vec![
        condition_skips(target(), "false"),
        deferred(target(), "x"),
        condition_unknown(target()),
        trigger_filter(target(), "refs/heads/dev"),
    ];
    assert!(is_condition_finding(&fs[0]));
    assert!(!is_condition_finding(&fs[1]));
    let kept = structural_findings(&fs);
    assert_eq!(kept.len(), 1);
    assert_eq!(kept[0].code, "GHA_DEFERRED");
}

#[test]
fn state_keys_split_at_the_first_hash() {
    assert_eq!(split_state_key("build"), Ok(("build".to_string(), None)));
    assert_eq!(split_state_key("build#12"), Ok(("build".to_string(), Some(12))));
    assert_eq!(split_state_key("t (a=1)#0"), Ok(("t (a=1)".to_string(), Some(0))));
    assert_eq!(split_state_key("x#"), Err("x#".to_string()));
    assert_eq!(split_state_key("x#1a"), Err("x#1a".to_string()));
    assert_eq!(
        split_state_key("x#99999999999999999999999"),
        Err("x#99999999999999999999999".to_string())
    );
}

#[test]
fn scratch_paths_drop_separators() {
    assert_eq!(scratch_path("a/b\\c.yml"), "(scratch)/abc.yml");
}

#[test]
fn nested_uses_are_found_in_document_order() {
    let doc = Yaml::Mapping(
        vec![(
            Yaml::Str("runs".to_string()),
            Yaml::Mapping(
                vec![(
                    Yaml::Str("steps".to_string()),
                    Yaml::List(
                        vec![
                            Yaml::Mapping(
                                vec![(Yaml::Str("uses".to_string()), Yaml::Str("actions/checkout@v4".to_string()))],
                                String::new(),
                            ),
                            Yaml::Mapping(
                                vec![(Yaml::Str("uses".to_string()), Yaml::Str("./local".to_string()))],
                                String::new(),
                            ),
                            Yaml::Mapping(
                                vec![(Yaml::Str("uses".to_string()), Yaml::Str("acme/tools@v2".to_string()))],
                                String::new(),
                            ),
                        ],
                        String::new(),
                    ),
                )],
                String::new(),
            ),
        )],
        String::new(),
    );
    let refs = yaml_remotes(&doc);
    assert_eq!(refs.len(), 2);
    assert_eq!(refs[0].raw, "actions/checkout@v4");
    assert_eq!(refs[1].repo, "tools");
}
