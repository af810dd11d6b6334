use gha_see::fetch::RemoteRef;
use gha_see::findings::FindingTarget;
use gha_see::refetch::{FetchStep, RemoteFetch};

fn remote(s: &str) -> RemoteRef {
    RemoteRef::parse(s).unwrap()
}

fn expect_fetch(step: FetchStep) -> String {
    match step {
        FetchStep::Fetch(r) => r.raw,
        _ => panic!("expected a fetch"),
    }
}

fn expect_read(step: FetchStep) -> String {
    match step {
        FetchStep::ReadNested(r) => r.raw,
        _ => panic!("expected a nested read"),
    }
}

#[test]
fn fetch_machine_fetches_once_reads_once_and_soft_fails() {
    let t = FindingTarget::Job { file: "w.yml".to_string(), job: "j".to_string() };
    let mut m = RemoteFetch::new(vec![
        (remote("acme/a@v1"), t.clone()),
        (remote("acme/b@v1"), t.clone()),
        (remote("acme/a@v1"), t.clone()),
    ]);
    assert_eq!(expect_fetch(m.next()), "acme/a@v1");
    m.fetched(None);
    assert_eq!(expect_read(m.next()), "acme/a@v1");
    m.nested(vec![remote("acme/c@v2")]);
    assert_eq!(expect_fetch(m.next()), "acme/b@v1");
    m.fetched(Some("HTTP 404".to_string()));
    assert_eq!(expect_fetch(m.next()), "acme/c@v2");
    m.fetched(None);
    assert_eq!(expect_read(m.next()), "acme/c@v2");
    m.nested(vec![]);
    assert!(matches!(m.next(), FetchStep::Done));
    assert_eq!(m.findings.len(), 1);
    assert_eq!(m.findings[0].code, "GHA_USES_FETCH");
    assert!(m.findings[0].message.contains("HTTP 404"));
    assert_eq!(m.findings[0].target, t);
}

#[test]
fn fetch_machine_stops_at_the_depth_limit() {
    let t = FindingTarget::File("w.yml".to_string());
    let mut m = RemoteFetch::new(vec![(remote("acme/a@v1"), t.clone())]);
    let mut reads = 0;
    loop {
        match m.next() {
            FetchStep::Fetch(_) => m.fetched(None),
            FetchStep::ReadNested(r) => {
                reads += 1;
                // Every reference names a new one, forever.
                let next = format!("acme/n{reads}@v1");
                let _ = r;
                m.nested(vec![remote(&next)]);
            }
            FetchStep::Done => break,
        }
    }
    assert_eq!(reads, 8);
    assert!(m.findings.is_empty());
}
