//! The findings the analysis pipeline derives from normalized workflows on
//! top of what graph building, expression scanning and evaluation report:
//! deferred constructs, matrix outcomes, what-if limits and `write-all`
//! permissions on pull requests. Reading files and discovering them is left
//! to the caller.

use vstd::prelude::*;

use crate::findings::{deferred, matrix_cap, matrix_empty, matrix_unsupported, permissions_write_all,
    whatif_limit, Finding, FindingTarget, STarget, Severity, DEFERRED_COACH, MATRIX_CAP_COACH_1,
    MATRIX_CAP_COACH_2, MATRIX_EMPTY_COACH, MATRIX_UNSUPPORTED_COACH, WHATIF_COACH, WRITE_ALL_COACH,
    WRITE_ALL_MESSAGE};
use crate::eval::EvalContext;
use crate::fetch::{parse_remote_spec, RemoteRef};
use crate::triggers::{branch_mismatch_spec, TriggerSet};
use crate::yaml::Yaml;
use crate::ir::{Job, Permissions, Step, SupportTier, WorkflowFile};
use crate::matrix::MatrixNote;
use crate::smap::{str_eq, StrMap};
use crate::text::{decimal, views};

verus! {

/// Why an analysis could not be run.
pub enum AnalyzeError {
    Discover(crate::discover::DiscoverError),
    WorkflowIndex(usize),
    CacheDirectory,
}

impl AnalyzeError {
    /// The human-readable description of this error; a discovery error is
    /// described by its own message.
    pub fn to_message(&self) -> (s: Option<String>)
        ensures
            match self {
                AnalyzeError::Discover(e) => s == None::<String>,
                AnalyzeError::WorkflowIndex(i) => s matches Some(m) && m@ == "workflow index "@ + decimal(*i as nat) + " does not exist"@,
                AnalyzeError::CacheDirectory => s matches Some(m) && m@ == "could not determine the user cache directory"@,
            },
    {
        match self {
            AnalyzeError::Discover(_) => None,
            AnalyzeError::WorkflowIndex(i) => {
                let mut m = crate::text::owned("workflow index ");
                let n = crate::text::usize_to_string(*i);
                m.append(n.as_str());
                m.append(" does not exist");
                Some(m)
            },
            AnalyzeError::CacheDirectory => Some(crate::text::owned("could not determine the user cache directory")),
        }
    }
}

/// What a finding says, every field by view.
pub struct FindingView {
    pub severity: Severity,
    pub code: Seq<char>,
    pub target: STarget,
    pub message: Seq<char>,
    pub coach: Seq<char>,
}

/// The view of a finding.
pub open spec fn fview(f: Finding) -> FindingView {
    FindingView { severity: f.severity, code: f.code@, target: f.target.tv(), message: f.message@, coach: f.coach@ }
}

/// The views of a list of findings.
pub open spec fn fviews(fs: Seq<Finding>) -> Seq<FindingView> {
    fs.map_values(|f: Finding| fview(f))
}

/// The deferral finding for `target` and `reason`.
pub open spec fn deferred_view(target: STarget, reason: Seq<char>) -> FindingView {
    FindingView {
        severity: Severity::Info,
        code: "GHA_DEFERRED"@,
        target,
        message: "Not evaluated in this version: "@ + reason,
        coach: DEFERRED_COACH@,
    }
}

/// The what-if finding for `target` and `detail`.
pub open spec fn whatif_view(target: STarget, detail: Seq<char>) -> FindingView {
    FindingView { severity: Severity::Info, code: "GHA_WHATIF_LIMIT"@, target, message: "What-if limit: "@ + detail, coach: WHATIF_COACH@ }
}

/// The `write-all` finding for `target`.
pub open spec fn write_all_view(target: STarget) -> FindingView {
    FindingView {
        severity: Severity::Warning,
        code: "GHA_PERMISSIONS_WRITE_ALL"@,
        target,
        message: WRITE_ALL_MESSAGE@,
        coach: WRITE_ALL_COACH@,
    }
}

/// The finding for job `job` of `file` whose matrix ended as `note`.
pub open spec fn matrix_view(file: Seq<char>, job: Seq<char>, note: MatrixNote) -> FindingView {
    let target = STarget::Job { file, job };
    match note {
        MatrixNote::Empty => FindingView {
            severity: Severity::Warning,
            code: "GHA_MATRIX_EMPTY"@,
            target,
            message: "Job `"@ + job + "`'s `strategy.matrix` produces zero combinations"@,
            coach: MATRIX_EMPTY_COACH@,
        },
        MatrixNote::Capped { total, cap } => FindingView {
            severity: Severity::Warning,
            code: "GHA_MATRIX_CAP"@,
            target,
            message: "Job `"@ + job + "`'s `strategy.matrix` expands to "@ + decimal(total as nat) + " combinations; only the first "@
                + decimal(cap as nat) + " are shown"@,
            coach: MATRIX_CAP_COACH_1@ + decimal(cap as nat) + MATRIX_CAP_COACH_2@,
        },
        MatrixNote::Unsupported(reason) => FindingView {
            severity: Severity::Info,
            code: "GHA_MATRIX_UNSUPPORTED"@,
            target,
            message: "Job `"@ + job + "`'s `strategy.matrix` isn't evaluated in this version: "@ + reason@,
            coach: MATRIX_UNSUPPORTED_COACH@,
        },
    }
}

/// Condition findings are the ones re-evaluation replaces: skipped or
/// unknown conditions, and push-filter mismatches.
pub open spec fn is_condition_code(code: Seq<char>) -> bool {
    code == "GHA_COND_SKIP"@ || code == "GHA_COND_UNKNOWN"@ || code == "GHA_TRIGGER_FILTER"@
}

/// Whether `f` is a condition finding.
pub fn is_condition_finding(f: &Finding) -> (r: bool)
    ensures
        r == is_condition_code(f.code@),
{
    str_eq(f.code, "GHA_COND_SKIP") || str_eq(f.code, "GHA_COND_UNKNOWN") || str_eq(f.code, "GHA_TRIGGER_FILTER")
}

/// The findings of `fs` that are not condition findings, in order.
pub open spec fn structural(fs: Seq<Finding>) -> Seq<Finding>
    decreases fs.len(),
{
    if fs.len() == 0 {
        Seq::empty()
    } else {
        let r = structural(fs.drop_last());
        if is_condition_code(fs.last().code@) {
            r
        } else {
            r.push(fs.last())
        }
    }
}

/// The findings that re-evaluation keeps: all but the condition findings.
pub fn structural_findings(fs: &Vec<Finding>) -> (r: Vec<Finding>)
    ensures
        r@ == structural(fs@),
{
    let mut r: Vec<Finding> = Vec::new();
    let mut i: usize = 0;
    while i < fs.len()
        invariant
            i <= fs.len(),
            r@ == structural(fs@.take(i as int)),
        decreases fs.len() - i,
    {
        proof {
            assert(fs@.take(i + 1).drop_last() =~= fs@.take(i as int));
        }
        if !is_condition_finding(&fs[i]) {
            r.push(fs[i].clone());
        }
        i += 1;
    }
    proof {
        assert(fs@.take(fs.len() as int) =~= fs@);
    }
    r
}

/// The deferral findings of the first `m` steps of job `job` of `file`: one
/// per reason, step by step.
pub open spec fn step_deferrals(file: Seq<char>, job: Seq<char>, steps: Seq<Step>, m: int) -> Seq<FindingView>
    decreases m,
{
    if m <= 0 {
        Seq::empty()
    } else {
        let t = STarget::Step { file, job, step_idx: (m - 1) as nat };
        step_deferrals(file, job, steps, m - 1) + views(steps[m - 1].deferred_reasons@).map_values(
            |r: Seq<char>| deferred_view(t, r),
        )
    }
}

/// The deferral findings of the first `m` jobs of `jobs`: a job's own
/// reasons, then its steps'.
pub open spec fn job_deferrals(file: Seq<char>, jobs: Seq<(Seq<char>, Job)>, m: int) -> Seq<FindingView>
    decreases m,
{
    if m <= 0 {
        Seq::empty()
    } else {
        let (id, job) = jobs[m - 1];
        job_deferrals(file, jobs, m - 1) + views(job.deferred_reasons@).map_values(
            |r: Seq<char>| deferred_view(STarget::Job { file, job: id }, r),
        ) + step_deferrals(file, id, job.steps@, job.steps@.len() as int)
    }
}

/// Push one deferral finding per reason of `reasons` for `target`.
fn push_deferrals(target: &FindingTarget, reasons: &Vec<String>, findings: &mut Vec<Finding>)
    ensures
        fviews(final(findings)@) == fviews(old(findings)@) + views(reasons@).map_values(
            |r: Seq<char>| deferred_view(target.tv(), r),
        ),
{
    let ghost start = fviews(findings@);
    let mut k: usize = 0;
    while k < reasons.len()
        invariant
            k <= reasons.len(),
            fviews(findings@) == start + views(reasons@).take(k as int).map_values(|r: Seq<char>| deferred_view(target.tv(), r)),
        decreases reasons.len() - k,
    {
        let ghost before = findings@;
        findings.push(deferred(target.clone(), reasons[k].as_str()));
        proof {
            assert(fviews(findings@) =~= fviews(before).push(deferred_view(target.tv(), reasons@[k as int]@)));
            assert(views(reasons@).take(k + 1) =~= views(reasons@).take(k as int).push(reasons@[k as int]@));
            assert(views(reasons@).take(k + 1).map_values(|r: Seq<char>| deferred_view(target.tv(), r)) =~= views(
                reasons@,
            ).take(k as int).map_values(|r: Seq<char>| deferred_view(target.tv(), r)).push(deferred_view(target.tv(), reasons@[k as int]@)));
        }
        k += 1;
    }
    proof {
        assert(views(reasons@).take(reasons.len() as int) =~= views(reasons@));
    }
}

/// Append a `GHA_DEFERRED` finding for every deferral reason of every job
/// and step of `wf`.
pub fn collect_deferred_findings(wf: &WorkflowFile, findings: &mut Vec<Finding>)
    ensures
        fviews(final(findings)@) == fviews(old(findings)@) + job_deferrals(wf.path@, wf.jobs@, wf.jobs@.len() as int),
{
    let ghost start = fviews(findings@);
    let n = wf.jobs.len();
    let mut i: usize = 0;
    while i < n
        invariant
            i <= n == wf.jobs@.len(),
            fviews(findings@) == start + job_deferrals(wf.path@, wf.jobs@, i as int),
        decreases n - i,
    {
        let job_id = wf.jobs.key_at(i);
        let job = wf.jobs.value_at(i);
        let job_target = FindingTarget::Job { file: wf.path.clone(), job: job_id.clone() };
        push_deferrals(&job_target, &job.deferred_reasons, findings);
        let ghost mid = fviews(findings@);
        let mut s: usize = 0;
        while s < job.steps.len()
            invariant
                s <= job.steps@.len(),
                *job == wf.jobs@[i as int].1,
                job_id@ == wf.jobs@[i as int].0,
                fviews(findings@) == mid + step_deferrals(wf.path@, job_id@, job.steps@, s as int),
            decreases job.steps.len() - s,
        {
            let step_target = FindingTarget::Step { file: wf.path.clone(), job: job_id.clone(), step_idx: s };
            push_deferrals(&step_target, &job.steps[s].deferred_reasons, findings);
            proof {
                assert(fviews(findings@) =~= mid + step_deferrals(wf.path@, job_id@, job.steps@, s + 1));
            }
            s += 1;
        }
        proof {
            assert(fviews(findings@) =~= start + job_deferrals(wf.path@, wf.jobs@, i + 1));
        }
        i += 1;
    }
}

/// The matrix findings of the first `m` jobs: one for each job with a
/// matrix note.
pub open spec fn matrix_notes(file: Seq<char>, jobs: Seq<(Seq<char>, Job)>, m: int) -> Seq<FindingView>
    decreases m,
{
    if m <= 0 {
        Seq::empty()
    } else {
        let r = matrix_notes(file, jobs, m - 1);
        match jobs[m - 1].1.matrix_note {
            Some(note) => r.push(matrix_view(file, jobs[m - 1].0, note)),
            None => r,
        }
    }
}

/// Append the `GHA_MATRIX_*` finding of every job of `wf` whose matrix
/// expansion left a note, targeting the job.
pub fn collect_matrix_findings(wf: &WorkflowFile, findings: &mut Vec<Finding>)
    ensures
        fviews(final(findings)@) == fviews(old(findings)@) + matrix_notes(wf.path@, wf.jobs@, wf.jobs@.len() as int),
{
    let ghost start = fviews(findings@);
    let n = wf.jobs.len();
    let mut i: usize = 0;
    while i < n
        invariant
            i <= n == wf.jobs@.len(),
            fviews(findings@) == start + matrix_notes(wf.path@, wf.jobs@, i as int),
        decreases n - i,
    {
        let job_id = wf.jobs.key_at(i);
        let job = wf.jobs.value_at(i);
        let ghost before = findings@;
        match &job.matrix_note {
            None => {},
            Some(MatrixNote::Empty) => {
                findings.push(matrix_empty(wf.path.clone(), job_id.as_str()));
            },
            Some(MatrixNote::Capped { total, cap }) => {
                findings.push(matrix_cap(wf.path.clone(), job_id.as_str(), *total, *cap));
            },
            Some(MatrixNote::Unsupported(reason)) => {
                findings.push(matrix_unsupported(wf.path.clone(), job_id.as_str(), reason.as_str()));
            },
        }
        proof {
            if job.matrix_note is Some {
                assert(fviews(findings@) =~= fviews(before).push(matrix_view(wf.path@, job_id@, job.matrix_note->0)));
            }
        }
        i += 1;
    }
}

/// The what-if and `write-all` findings of the first `m` jobs of `jobs` in
/// `file`, with `pr` telling whether the workflow runs on pull requests.
pub open spec fn job_extras(file: Seq<char>, jobs: Seq<(Seq<char>, Job)>, pr: bool, m: int) -> Seq<FindingView>
    decreases m,
{
    if m <= 0 {
        Seq::empty()
    } else {
        let (id, job) = jobs[m - 1];
        let t = STarget::Job { file, job: id };
        let a = if job.concurrency is Some {
            seq![whatif_view(t, "job concurrency is displayed, but queueing and cancellation are not simulated"@)]
        } else {
            Seq::empty()
        };
        let b = if job.services@.len() > 0 {
            seq![whatif_view(t, "service containers are displayed, but containers are not started"@)]
        } else {
            Seq::empty()
        };
        let c = if job.environment is Some {
            seq![whatif_view(t, "environment metadata is displayed, but protection rules are not evaluated"@)]
        } else {
            Seq::empty()
        };
        let d = if pr && job.permissions == Some(Permissions::WriteAll) {
            seq![write_all_view(t)]
        } else {
            Seq::empty()
        };
        job_extras(file, jobs, pr, m - 1) + a + b + c + d
    }
}

/// The what-if and `write-all` findings of `wf`: workflow concurrency, a
/// `write-all` workflow on pull requests, then each job's.
pub open spec fn extras(wf: WorkflowFile) -> Seq<FindingView> {
    let t = STarget::File(wf.path@);
    let pr = wf.triggers.pull_request is Some;
    let a = if wf.concurrency is Some {
        seq![whatif_view(t, "workflow concurrency is displayed, but queueing and cancellation are not simulated"@)]
    } else {
        Seq::empty()
    };
    let b = if pr && wf.permissions == Some(Permissions::WriteAll) {
        seq![write_all_view(t)]
    } else {
        Seq::empty()
    };
    a + b + job_extras(wf.path@, wf.jobs@, pr, wf.jobs@.len() as int)
}

fn is_write_all(p: &Option<Permissions>) -> (r: bool)
    ensures
        r == (*p == Some(Permissions::WriteAll)),
{
    match p {
        Some(Permissions::WriteAll) => true,
        _ => false,
    }
}

/// Append the what-if findings (modeled but not simulated settings) and the
/// `write-all`-on-pull-request findings of `wf`.
#[verifier::rlimit(40)]
#[verifier::spinoff_prover]
pub fn collect_extra_findings(wf: &WorkflowFile, findings: &mut Vec<Finding>)
    ensures
        fviews(final(findings)@) == fviews(old(findings)@) + extras(*wf),
{
    let ghost start = fviews(findings@);
    let file_target = FindingTarget::File(wf.path.clone());
    if wf.concurrency.is_some() {
        findings.push(whatif_limit(
            file_target.clone(),
            "workflow concurrency is displayed, but queueing and cancellation are not simulated",
        ));
    }
    let pull_request = wf.triggers.pull_request.is_some();
    if pull_request && is_write_all(&wf.permissions) {
        findings.push(permissions_write_all(file_target));
    }
    let ghost head = fviews(findings@);
    proof {
        let t = STarget::File(wf.path@);
        let a = if wf.concurrency is Some {
            seq![whatif_view(t, "workflow concurrency is displayed, but queueing and cancellation are not simulated"@)]
        } else {
            Seq::empty()
        };
        let b = if pull_request && wf.permissions == Some(Permissions::WriteAll) {
            seq![write_all_view(t)]
        } else {
            Seq::empty()
        };
        assert(head =~= start + a + b);
    }
    let n = wf.jobs.len();
    let mut i: usize = 0;
    while i < n
        invariant
            i <= n == wf.jobs@.len(),
            pull_request == (wf.triggers.pull_request is Some),
            fviews(findings@) == head + job_extras(wf.path@, wf.jobs@, pull_request, i as int),
        decreases n - i,
    {
        let job_id = wf.jobs.key_at(i);
        let job = wf.jobs.value_at(i);
        let target = FindingTarget::Job { file: wf.path.clone(), job: job_id.clone() };
        let ghost s0 = fviews(findings@);
        if job.concurrency.is_some() {
            findings.push(whatif_limit(
                target.clone(),
                "job concurrency is displayed, but queueing and cancellation are not simulated",
            ));
        }
        if !job.services.is_empty() {
            findings.push(whatif_limit(target.clone(), "service containers are displayed, but containers are not started"));
        }
        if job.environment.is_some() {
            findings.push(whatif_limit(
                target.clone(),
                "environment metadata is displayed, but protection rules are not evaluated",
            ));
        }
        if pull_request && is_write_all(&job.permissions) {
            findings.push(permissions_write_all(target));
        }
        proof {
            let t = STarget::Job { file: wf.path@, job: job_id@ };
            let a = if job.concurrency is Some {
                seq![whatif_view(t, "job concurrency is displayed, but queueing and cancellation are not simulated"@)]
            } else {
                Seq::empty()
            };
            let b = if job.services@.len() > 0 {
                seq![whatif_view(t, "service containers are displayed, but containers are not started"@)]
            } else {
                Seq::empty()
            };
            let c = if job.environment is Some {
                seq![whatif_view(t, "environment metadata is displayed, but protection rules are not evaluated"@)]
            } else {
                Seq::empty()
            };
            let d = if pull_request && job.permissions == Some(Permissions::WriteAll) {
                seq![write_all_view(t)]
            } else {
                Seq::empty()
            };
            assert(fviews(findings@) =~= s0 + a + b + c + d);
        }
        i += 1;
    }
}

/// A step names a remote action of its own that was not loaded.
pub open spec fn unfetched_here(s: Step) -> bool {
    s.uses matches Some(u) && parse_remote_spec(u@) is Some && s.resolved_action_name is None
}

/// A step, or one of its composite steps at any depth, names a remote
/// action that was not loaded.
pub open spec fn step_needs_fetch(s: Step) -> bool
    decreases s, s.composite_steps@.len() + 1,
{
    unfetched_here(s) || children_need_fetch(s, s.composite_steps@.len() as int)
}

/// One of the first `m` composite steps of `s` needs a fetch.
pub open spec fn children_need_fetch(s: Step, m: int) -> bool
    decreases s, if m >= 0 { m as nat } else { 0nat },
{
    if m <= 0 || m > s.composite_steps@.len() {
        false
    } else {
        proof {
            vstd::std_specs::vec::axiom_vec_index_decreases(s.composite_steps, m - 1);
        }
        children_need_fetch(s, m - 1) || step_needs_fetch(s.composite_steps@[m - 1])
    }
}

/// One of the first `m` of `steps` needs a fetch.
pub open spec fn any_step_needs_fetch(steps: Seq<Step>, m: int) -> bool
    decreases m,
{
    if m <= 0 {
        false
    } else {
        any_step_needs_fetch(steps, m - 1) || step_needs_fetch(steps[m - 1])
    }
}

/// Whether `s` or one of its composite steps names a remote action that was
/// not loaded.
fn step_needs_remote_fetch(s: &Step) -> (r: bool)
    ensures
        r == step_needs_fetch(*s),
    decreases s,
{
    if let Some(uses) = &s.uses {
        if RemoteRef::parse(uses.as_str()).is_ok() && s.resolved_action_name.is_none() {
            return true;
        }
    }
    let mut i: usize = 0;
    while i < s.composite_steps.len()
        invariant
            i <= s.composite_steps@.len(),
            !unfetched_here(*s),
            !children_need_fetch(*s, i as int),
        decreases s.composite_steps.len() - i,
    {
        proof {
            vstd::std_specs::vec::axiom_vec_index_decreases(s.composite_steps, i as int);
        }
        if step_needs_remote_fetch(&s.composite_steps[i]) {
            proof {
                assert(children_need_fetch(*s, i + 1));
                lemma_children_extends(*s, i + 1, s.composite_steps@.len() as int);
            }
            return true;
        }
        i += 1;
    }
    false
}

/// Whether any of `steps`, at any depth, names a remote action that was not
/// loaded.
pub fn steps_need_remote_fetch(steps: &Vec<Step>) -> (r: bool)
    ensures
        r == any_step_needs_fetch(steps@, steps@.len() as int),
{
    let mut i: usize = 0;
    while i < steps.len()
        invariant
            i <= steps@.len(),
            !any_step_needs_fetch(steps@, i as int),
        decreases steps.len() - i,
    {
        if step_needs_remote_fetch(&steps[i]) {
            proof {
                lemma_any_step_extends(steps@, i + 1, steps@.len() as int);
            }
            return true;
        }
        i += 1;
    }
    false
}

proof fn lemma_children_extends(s: Step, a: int, b: int)
    requires
        0 <= a <= b <= s.composite_steps@.len(),
        children_need_fetch(s, a),
    ensures
        children_need_fetch(s, b),
    decreases b - a,
{
    if a < b {
        lemma_children_extends(s, a, b - 1);
    }
}

proof fn lemma_any_step_extends(steps: Seq<Step>, a: int, b: int)
    requires
        0 <= a <= b,
        any_step_needs_fetch(steps, a),
    ensures
        any_step_needs_fetch(steps, b),
    decreases b - a,
{
    if a < b {
        lemma_any_step_extends(steps, a, b - 1);
    }
}

/// A job calls a remote reusable workflow that was deferred, or one of its
/// steps needs a fetch.
pub open spec fn job_needs_fetch(j: Job) -> bool {
    (j.uses matches Some(u) && parse_remote_spec(u@) is Some && j.support == SupportTier::Deferred)
        || any_step_needs_fetch(j.steps@, j.steps@.len() as int)
}

/// Some remote `uses:` of `wf` is still unresolved: a deferred remote
/// reusable-workflow call, or a remote action not loaded, in a job's or an
/// instance's steps.
pub open spec fn workflow_needs_fetch(wf: WorkflowFile) -> bool {
    (exists|i: int| 0 <= i < wf.jobs@.len() && job_needs_fetch(#[trigger] wf.jobs@[i].1))
        || (exists|i: int| 0 <= i < wf.instances@.len() && any_step_needs_fetch(
            (#[trigger] wf.instances@[i]).1.steps@,
            wf.instances@[i].1.steps@.len() as int,
        ))
}

/// Whether any remote `uses:` of `wf` is still unresolved (the web UI offers
/// Fetch while it is).
pub fn workflow_needs_remote_fetch(wf: &WorkflowFile) -> (r: bool)
    ensures
        r == workflow_needs_fetch(*wf),
{
    let n = wf.jobs.len();
    let mut i: usize = 0;
    while i < n
        invariant
            i <= n == wf.jobs@.len(),
            forall|k: int| 0 <= k < i ==> !job_needs_fetch(#[trigger] wf.jobs@[k].1),
        decreases n - i,
    {
        let job = wf.jobs.value_at(i);
        if let Some(uses) = &job.uses {
            if RemoteRef::parse(uses.as_str()).is_ok() && job.support == SupportTier::Deferred {
                assert(job_needs_fetch(wf.jobs@[i as int].1));
                return true;
            }
        }
        if steps_need_remote_fetch(&job.steps) {
            assert(job_needs_fetch(wf.jobs@[i as int].1));
            return true;
        }
        i += 1;
    }
    let m = wf.instances.len();
    let mut i: usize = 0;
    while i < m
        invariant
            i <= m == wf.instances@.len(),
            n == wf.jobs@.len(),
            forall|k: int| 0 <= k < n ==> !job_needs_fetch(#[trigger] wf.jobs@[k].1),
            forall|k: int| 0 <= k < i ==> !any_step_needs_fetch(
                (#[trigger] wf.instances@[k]).1.steps@,
                wf.instances@[k].1.steps@.len() as int,
            ),
        decreases m - i,
    {
        if steps_need_remote_fetch(&wf.instances.value_at(i).steps) {
            assert(any_step_needs_fetch(wf.instances@[i as int].1.steps@, wf.instances@[i as int].1.steps@.len() as int));
            return true;
        }
        i += 1;
    }
    false
}

/// The remote `uses:` references of a step and its composite steps, in
/// order (the step's own first).
pub open spec fn step_remotes(s: Step) -> Seq<Seq<char>>
    decreases s, s.composite_steps@.len() + 1,
{
    own_remote(s) + children_remotes(s, s.composite_steps@.len() as int)
}

/// The step's own `uses:`, when it is a remote reference.
pub open spec fn own_remote(s: Step) -> Seq<Seq<char>> {
    match s.uses {
        Some(u) => if parse_remote_spec(u@) is Some {
            seq![u@]
        } else {
            Seq::empty()
        },
        None => Seq::empty(),
    }
}

/// The remote references of the first `m` composite steps of `s`.
pub open spec fn children_remotes(s: Step, m: int) -> Seq<Seq<char>>
    decreases s, if m >= 0 { m as nat } else { 0nat },
{
    if m <= 0 || m > s.composite_steps@.len() {
        Seq::empty()
    } else {
        proof {
            vstd::std_specs::vec::axiom_vec_index_decreases(s.composite_steps, m - 1);
        }
        children_remotes(s, m - 1) + step_remotes(s.composite_steps@[m - 1])
    }
}

/// `rs` are the references `uses`, parsed, each with target `t`.
pub open spec fn remotes_are(rs: Seq<(RemoteRef, FindingTarget)>, uses: Seq<Seq<char>>, t: STarget) -> bool {
    rs.len() == uses.len() && forall|k: int| 0 <= k < rs.len() ==> (#[trigger] rs[k]).0.parsed_from(uses[k]) && rs[k].1.tv() == t
}

/// Append the remote references of `step` and its composite steps, each
/// with target `target`.
pub fn collect_step_remotes(step: &Step, target: &FindingTarget, remotes: &mut Vec<(RemoteRef, FindingTarget)>)
    ensures
        final(remotes)@.len() >= old(remotes)@.len(),
        final(remotes)@.take(old(remotes)@.len() as int) == old(remotes)@,
        remotes_are(final(remotes)@.skip(old(remotes)@.len() as int), step_remotes(*step), target.tv()),
    decreases step,
{
    let ghost start = remotes@;
    if let Some(uses) = &step.uses {
        if let Ok(remote) = RemoteRef::parse(uses.as_str()) {
            remotes.push((remote, target.clone()));
        }
    }
    let ghost own = remotes@.skip(start.len() as int);
    let mut i: usize = 0;
    proof {
        assert(remotes@.take(start.len() as int) =~= start);
        assert(remotes@.skip(start.len() as int) =~= own);
    }
    while i < step.composite_steps.len()
        invariant
            i <= step.composite_steps@.len(),
            remotes@.take(start.len() as int) == start,
            remotes@.len() >= start.len() + own.len(),
            remotes@.subrange(start.len() as int, (start.len() + own.len()) as int) == own,
            remotes_are(own, own_remote(*step), target.tv()),
            remotes_are(remotes@.skip((start.len() + own.len()) as int), children_remotes(*step, i as int), target.tv()),
        decreases step.composite_steps.len() - i,
    {
        proof {
            vstd::std_specs::vec::axiom_vec_index_decreases(step.composite_steps, i as int);
        }
        let ghost before = remotes@;
        collect_step_remotes(&step.composite_steps[i], target, remotes);
        proof {
            let base = (start.len() + own.len()) as int;
            let prev = before.skip(base);
            let added = remotes@.skip(before.len() as int);
            assert(remotes@.take(before.len() as int) =~= before);
            assert forall|k: int| base <= k < before.len() implies remotes@[k] == before[k] by {
                assert(remotes@.take(before.len() as int)[k] == before[k]);
            }
            assert(remotes@.skip(base) =~= prev + added);
            assert(remotes@.take(start.len() as int) =~= start) by {
                assert forall|k: int| 0 <= k < start.len() implies remotes@[k] == start[k] by {
                    assert(remotes@.take(before.len() as int)[k] == before[k]);
                    assert(before.take(start.len() as int)[k] == start[k]);
                }
            }
            assert(remotes@.subrange(start.len() as int, base) =~= before.subrange(start.len() as int, base));
            let cr = children_remotes(*step, i as int);
            let sr = step_remotes(step.composite_steps@[i as int]);
            assert(children_remotes(*step, i + 1) == cr + sr);
            assert forall|k: int| 0 <= k < prev.len() + added.len() implies (#[trigger] (prev + added)[k]).0.parsed_from((cr + sr)[k])
                && (prev + added)[k].1.tv() == target.tv() by {
                if k < prev.len() {
                    assert((prev + added)[k] == prev[k]);
                    assert((cr + sr)[k] == cr[k]);
                } else {
                    assert((prev + added)[k] == added[k - prev.len()]);
                    assert((cr + sr)[k] == sr[k - prev.len()]);
                }
            }
        }
        i += 1;
    }
    proof {
        let base = (start.len() + own.len()) as int;
        let ownu = own_remote(*step);
        let tail = remotes@.skip(base);
        let cr = children_remotes(*step, step.composite_steps@.len() as int);
        assert(remotes@.skip(start.len() as int) =~= own + tail);
        assert forall|k: int| 0 <= k < own.len() + tail.len() implies (#[trigger] (own + tail)[k]).0.parsed_from((ownu + cr)[k])
            && (own + tail)[k].1.tv() == target.tv() by {
            if k < own.len() {
                assert((own + tail)[k] == own[k]);
                assert((ownu + cr)[k] == ownu[k]);
            } else {
                assert((own + tail)[k] == tail[k - own.len()]);
                assert((ownu + cr)[k] == cr[k - own.len()]);
            }
        }
    }
}

/// The references `us`, each with target `t`.
pub open spec fn tagged(us: Seq<Seq<char>>, t: STarget) -> Seq<(Seq<char>, STarget)> {
    us.map_values(|u: Seq<char>| (u, t))
}

/// `rs` are the references of `ex`, parsed, with their targets.
pub open spec fn remotes_match(rs: Seq<(RemoteRef, FindingTarget)>, ex: Seq<(Seq<char>, STarget)>) -> bool {
    rs.len() == ex.len() && forall|k: int| 0 <= k < rs.len() ==> (#[trigger] rs[k]).0.parsed_from(ex[k].0) && rs[k].1.tv() == ex[k].1
}

/// A job's own `uses:`, when it is a remote reusable workflow.
pub open spec fn own_call(j: Job) -> Seq<Seq<char>> {
    match j.uses {
        Some(u) => if parse_remote_spec(u@) is Some {
            seq![u@]
        } else {
            Seq::empty()
        },
        None => Seq::empty(),
    }
}

/// The remote references of the first `m` steps of job `id`, with their
/// step targets.
pub open spec fn steps_remote_list(file: Seq<char>, id: Seq<char>, steps: Seq<Step>, m: int) -> Seq<(Seq<char>, STarget)>
    decreases m,
{
    if m <= 0 {
        Seq::empty()
    } else {
        steps_remote_list(file, id, steps, m - 1) + tagged(
            step_remotes(steps[m - 1]),
            STarget::Step { file, job: id, step_idx: (m - 1) as nat },
        )
    }
}

/// The remote references of the first `m` jobs: each job's own call, then
/// its steps'.
pub open spec fn job_remote_list(file: Seq<char>, jobs: Seq<(Seq<char>, Job)>, m: int) -> Seq<(Seq<char>, STarget)>
    decreases m,
{
    if m <= 0 {
        Seq::empty()
    } else {
        let (id, job) = jobs[m - 1];
        job_remote_list(file, jobs, m - 1) + tagged(own_call(job), STarget::Job { file, job: id }) + steps_remote_list(
            file,
            id,
            job.steps@,
            job.steps@.len() as int,
        )
    }
}

proof fn lemma_remotes_concat(
    a: Seq<(RemoteRef, FindingTarget)>,
    x: Seq<(Seq<char>, STarget)>,
    b: Seq<(RemoteRef, FindingTarget)>,
    y: Seq<(Seq<char>, STarget)>,
)
    requires
        remotes_match(a, x),
        remotes_match(b, y),
    ensures
        remotes_match(a + b, x + y),
{
    assert forall|k: int| 0 <= k < (a + b).len() implies (#[trigger] (a + b)[k]).0.parsed_from((x + y)[k].0)
        && (a + b)[k].1.tv() == (x + y)[k].1 by {
        if k < a.len() {
            assert((a + b)[k] == a[k] && (x + y)[k] == x[k]);
        } else {
            assert((a + b)[k] == b[k - a.len()] && (x + y)[k] == y[k - a.len()]);
        }
    }
}

/// Every remote `uses:` of `wf` with the job or step it appears in: each
/// job's own reusable-workflow call, then every step's action references
/// (composite steps included).
pub fn remote_uses(wf: &WorkflowFile) -> (r: Vec<(RemoteRef, FindingTarget)>)
    ensures
        remotes_match(r@, job_remote_list(wf.path@, wf.jobs@, wf.jobs@.len() as int)),
{
    let mut remotes: Vec<(RemoteRef, FindingTarget)> = Vec::new();
    let n = wf.jobs.len();
    let mut i: usize = 0;
    while i < n
        invariant
            i <= n == wf.jobs@.len(),
            remotes_match(remotes@, job_remote_list(wf.path@, wf.jobs@, i as int)),
        decreases n - i,
    {
        let job_id = wf.jobs.key_at(i);
        let job = wf.jobs.value_at(i);
        let ghost before = remotes@;
        if let Some(uses) = &job.uses {
            if let Ok(remote) = RemoteRef::parse(uses.as_str()) {
                remotes.push((remote, FindingTarget::Job { file: wf.path.clone(), job: job_id.clone() }));
            }
        }
        proof {
            let jt = STarget::Job { file: wf.path@, job: job_id@ };
            let added = remotes@.skip(before.len() as int);
            assert(remotes_match(added, tagged(own_call(*job), jt)));
            assert(remotes@ =~= before + added);
            lemma_remotes_concat(before, job_remote_list(wf.path@, wf.jobs@, i as int), added, tagged(own_call(*job), jt));
        }
        let ghost mid = remotes@;
        let ghost mid_ex = job_remote_list(wf.path@, wf.jobs@, i as int) + tagged(own_call(*job), STarget::Job { file: wf.path@, job: job_id@ });
        let mut s: usize = 0;
        while s < job.steps.len()
            invariant
                s <= job.steps@.len(),
                *job == wf.jobs@[i as int].1,
                job_id@ == wf.jobs@[i as int].0,
                remotes_match(remotes@, mid_ex + steps_remote_list(wf.path@, job_id@, job.steps@, s as int)),
            decreases job.steps.len() - s,
        {
            let target = FindingTarget::Step { file: wf.path.clone(), job: job_id.clone(), step_idx: s };
            let ghost b2 = remotes@;
            collect_step_remotes(&job.steps[s], &target, &mut remotes);
            proof {
                let added = remotes@.skip(b2.len() as int);
                assert(remotes@.take(b2.len() as int) == b2);
                assert forall|k: int| 0 <= k < b2.len() implies remotes@[k] == b2[k] by {
                    assert(remotes@.take(b2.len() as int)[k] == b2[k]);
                }
                assert(remotes@ =~= b2 + added);
                let t = STarget::Step { file: wf.path@, job: job_id@, step_idx: s as nat };
                assert(remotes_match(added, tagged(step_remotes(job.steps@[s as int]), t)));
                lemma_remotes_concat(b2, mid_ex + steps_remote_list(wf.path@, job_id@, job.steps@, s as int), added, tagged(step_remotes(job.steps@[s as int]), t));
                assert(mid_ex + steps_remote_list(wf.path@, job_id@, job.steps@, s + 1) =~= mid_ex + steps_remote_list(
                    wf.path@,
                    job_id@,
                    job.steps@,
                    s as int,
                ) + tagged(step_remotes(job.steps@[s as int]), t));
            }
            s += 1;
        }
        proof {
            assert(job_remote_list(wf.path@, wf.jobs@, i + 1) =~= mid_ex + steps_remote_list(
                wf.path@,
                job_id@,
                job.steps@,
                job.steps@.len() as int,
            ));
        }
        i += 1;
    }
    remotes
}

/// Whether `wf` names any remote `uses:`, fetched or not.
pub fn workflow_has_remote_uses(wf: &WorkflowFile) -> (r: bool)
    ensures
        r == (job_remote_list(wf.path@, wf.jobs@, wf.jobs@.len() as int).len() > 0),
{
    remote_uses(wf).len() > 0
}

/// A placeholder workflow for a file that could not be parsed: no jobs,
/// `parse_ok` false, and `err` kept for display.
pub fn stub_workflow(path: String, err: String, raw_source: Option<String>) -> (wf: WorkflowFile)
    ensures
        wf.path == path,
        wf.raw_source == raw_source,
        wf.name is None,
        wf.on == Yaml::Null,
        wf.triggers.sv() == crate::triggers::no_triggers(),
        wf.concurrency is None,
        wf.permissions is None,
        wf.defaults_run is None,
        wf.jobs@.len() == 0,
        wf.instances@.len() == 0,
        !wf.parse_ok,
        wf.file_error == Some(err),
{
    WorkflowFile {
        path,
        raw_source,
        name: None,
        on: Yaml::Null,
        triggers: TriggerSet::empty(),
        concurrency: None,
        permissions: None,
        defaults_run: None,
        jobs: StrMap::new(),
        instances: StrMap::new(),
        parse_ok: false,
        file_error: Some(err),
    }
}

/// The push-filter finding of `wf` under `ctx`: present when the mock event
/// is a push whose ref the workflow's branch filters reject.
pub fn trigger_filter_finding(wf: &WorkflowFile, ctx: &EvalContext) -> (r: Option<Finding>)
    ensures
        match r {
            Some(f) => branch_mismatch_spec(wf.triggers.sv(), ctx.event_name@, ctx.ref_name@) && fview(f) == (FindingView {
                severity: Severity::Info,
                code: "GHA_TRIGGER_FILTER"@,
                target: STarget::File(wf.path@),
                message: "Mock push ref `"@ + ctx.ref_name@ + "` does not match this workflow's branch filters"@,
                coach: crate::findings::TRIGGER_FILTER_COACH@,
            }),
            None => !branch_mismatch_spec(wf.triggers.sv(), ctx.event_name@, ctx.ref_name@),
        },
{
    if wf.triggers.push_branch_filter_mismatch(ctx.event_name.as_str(), ctx.ref_name.as_str()) {
        Some(crate::findings::trigger_filter(FindingTarget::File(wf.path.clone()), ctx.ref_name.as_str()))
    } else {
        None
    }
}

/// The value of a nonempty string of ASCII digits.
pub open spec fn digits_value(s: Seq<char>) -> nat
    decreases s.len(),
{
    if s.len() == 0 {
        0
    } else {
        digits_value(s.drop_last()) * 10 + (s.last() as nat - '0' as nat) as nat
    }
}

/// Every character is an ASCII digit.
pub open spec fn all_digits(s: Seq<char>) -> bool {
    forall|i: int| 0 <= i < s.len() ==> '0' <= #[trigger] s[i] <= '9'
}

/// A run-state key splits into the instance id and, for a step, the step
/// index after the first `#`.
pub open spec fn state_key_split(key: Seq<char>) -> (Seq<char>, Option<Seq<char>>) {
    match first_occ_hash(key) {
        Some(i) => (key.take(i), Some(key.skip(i + 1))),
        None => (key, None),
    }
}

/// The position of the first `#` of `key`.
pub open spec fn first_occ_hash(key: Seq<char>) -> Option<int> {
    crate::text::first_occ(key, seq!['#'], 0)
}

/// Split a run-state key of [`crate::eval::evaluate`] (`<instance id>` or
/// `<instance id>#<step index>`) into the instance id and the step index.
/// A suffix that is not a decimal index that fits gives `Err` with the key
/// back.
pub fn split_state_key(key: &str) -> (r: Result<(String, Option<usize>), String>)
    ensures
        match r {
            Ok((id, None)) => state_key_split(key@) == (id@, None::<Seq<char>>),
            Ok((id, Some(n))) => {
                &&& state_key_split(key@).0 == id@
                &&& state_key_split(key@).1 matches Some(d) && d.len() > 0 && all_digits(d) && digits_value(d) == n
            },
            Err(k) => {
                &&& k@ == key@
                &&& state_key_split(key@).1 matches Some(d) && !(d.len() > 0 && all_digits(d) && digits_value(d) <= usize::MAX)
            },
        },
{
    let v = crate::text::chars_of(key);
    let hash = vec!['#'];
    assert(hash@ =~= seq!['#']);
    match crate::text::find_from(&v, &hash, 0) {
        None => {
            proof {
                assert(first_occ_hash(key@) is None);
            }
            Ok((crate::text::owned(key), None))
        },
        Some(i) => {
            proof {
                crate::text::lemma_first_occ_bounds(v@, hash@, 0);
                assert(i < v.len());
                assert(first_occ_hash(key@) == Some(i as int));
                assert(state_key_split(key@) == (key@.take(i as int), Some(key@.skip(i + 1))));
            }
            let id = crate::text::string_of_range(&v, 0, i);
            let mut n: usize = 0;
            let mut j: usize = i + 1;
            if j >= v.len() {
                proof {
                    assert(v@.skip(i + 1).len() == 0);
                }
                return Err(crate::text::owned(key));
            }
            while j < v.len()
                invariant
                    i < j <= v.len(),
                    v@ == key@,
                    state_key_split(key@) == (key@.take(i as int), Some(key@.skip(i + 1))),
                    all_digits(v@.subrange(i + 1, j as int)),
                    digits_value(v@.subrange(i + 1, j as int)) == n,
                decreases v.len() - j,
            {
                let c = v[j];
                proof {
                    assert(v@.subrange(i + 1, j + 1).drop_last() =~= v@.subrange(i + 1, j as int));
                }
                if c < '0' || c > '9' {
                    proof {
                        assert(v@.skip(i + 1)[j - i - 1] == c);
                        assert(!all_digits(v@.skip(i + 1)));
                    }
                    return Err(crate::text::owned(key));
                }
                let d = (c as u32 - '0' as u32) as usize;
                if n > (usize::MAX - d) / 10 {
                    proof {
                        let full = v@.skip(i + 1);
                        let p = v@.subrange(i + 1, j + 1);
                        assert(full.take((j - i) as int) =~= p);
                        assert(p.last() == c);
                        assert(digits_value(p) == n * 10 + d);
                        assert(n * 10 + d > usize::MAX) by (nonlinear_arith)
                            requires
                                n > (usize::MAX - d) / 10,
                                d <= 9,
                        ;
                        if all_digits(full) {
                            lemma_digits_prefix(full, (j - i) as int);
                        }
                    }
                    return Err(crate::text::owned(key));
                }
                n = n * 10 + d;
                j += 1;
            }
            proof {
                assert(v@.subrange(i + 1, v.len() as int) =~= v@.skip(i + 1));
            }
            Ok((id, Some(n)))
        },
    }
}

proof fn lemma_digits_prefix(s: Seq<char>, m: int)
    requires
        0 <= m <= s.len(),
        all_digits(s),
    ensures
        digits_value(s.take(m)) <= digits_value(s),
    decreases s.len(),
{
    if m < s.len() {
        let t = s.drop_last();
        assert(all_digits(t));
        lemma_digits_prefix(t, m);
        assert(t.take(m) =~= s.take(m));
    } else {
        assert(s.take(m) =~= s);
    }
}

proof fn lemma_digit_char_value(d: nat)
    requires
        d < 10,
    ensures
        '0' <= crate::text::digit_char(d) <= '9',
        crate::text::digit_char(d) as nat - '0' as nat == d,
{
}

proof fn lemma_decimal_digits(n: nat)
    ensures
        decimal(n).len() > 0,
        all_digits(decimal(n)),
        digits_value(decimal(n)) == n,
    decreases n,
{
    lemma_digit_char_value(n % 10);
    if n < 10 {
        assert(n % 10 == n);
        let d = decimal(n);
        assert(d.drop_last() =~= Seq::<char>::empty());
        assert(digits_value(d.drop_last()) == 0);
        assert(d.last() == crate::text::digit_char(n));
        assert(digits_value(d) == digits_value(d.drop_last()) * 10 + (d.last() as nat - '0' as nat) as nat);
    } else {
        lemma_decimal_digits(n / 10);
        let d = decimal(n);
        assert(d.drop_last() =~= decimal(n / 10));
        assert((n / 10) * 10 + n % 10 == n) by (nonlinear_arith);
        assert(d.last() == crate::text::digit_char(n % 10));
        assert(digits_value(d) == digits_value(d.drop_last()) * 10 + (d.last() as nat - '0' as nat) as nat);
        assert forall|i: int| 0 <= i < d.len() implies '0' <= #[trigger] d[i] <= '9' by {
            if i < d.len() - 1 {
                assert(d[i] == decimal(n / 10)[i]);
            }
        }
    }
}

/// Law: splitting a step's run-state key undoes building it. For an instance
/// id without `#`, the key of its step `n` splits back into the id and a
/// nonempty run of digits worth `n`, and the id alone splits into itself
/// with no step.
pub proof fn lemma_state_key_round_trip(id: Seq<char>, n: nat)
    requires
        forall|i: int| 0 <= i < id.len() ==> #[trigger] id[i] != '#',
    ensures
        state_key_split(crate::eval::step_key(id, n)).0 == id,
        state_key_split(crate::eval::step_key(id, n)).1 matches Some(d) && d.len() > 0 && all_digits(d)
            && digits_value(d) == n,
        state_key_split(id) == (id, None::<Seq<char>>),
{
    let key = crate::eval::step_key(id, n);
    let h = seq!['#'];
    let m = id.len() as int;
    assert forall|k: int| 0 <= k < m implies !#[trigger] crate::text::occurs_at(key, k, h) by {
        if crate::text::occurs_at(key, k, h) {
            assert(key.subrange(k, k + 1)[0] == key[k]);
            assert(key[k] == id[k]);
        }
    }
    assert(key.subrange(m, m + 1) =~= h);
    crate::text::lemma_first_occ_at(key, h, 0, m);
    assert(key.take(m) =~= id);
    assert(key.skip(m + 1) =~= decimal(n));
    lemma_decimal_digits(n);
    assert forall|k: int| 0 <= k implies !#[trigger] crate::text::occurs_at(id, k, h) by {
        if crate::text::occurs_at(id, k, h) {
            assert(id.subrange(k, k + 1)[0] == id[k]);
        }
    }
    crate::text::lemma_first_occ_skip(id, h, 0, m);
}

/// The path a scratch workflow named `label` is shown under: `(scratch)/`
/// and the label without path separators.
pub fn scratch_path(label: &str) -> (r: String)
    ensures
        r@ == "(scratch)/"@ + label@.filter(|c: char| c != '/' && c != '\\'),
{
    let v = crate::text::chars_of(label);
    let mut r = crate::text::owned("(scratch)/");
    let mut i: usize = 0;
    while i < v.len()
        invariant
            i <= v.len(),
            v@ == label@,
            r@ == "(scratch)/"@ + v@.take(i as int).filter(|c: char| c != '/' && c != '\\'),
        decreases v.len() - i,
    {
        let c = v[i];
        proof {
            assert(v@.take(i + 1).drop_last() =~= v@.take(i as int));
            reveal_with_fuel(Seq::filter, 1);
        }
        if c != '/' && c != '\\' {
            crate::text::push_char(&mut r, c);
        }
        i += 1;
    }
    proof {
        assert(v@.take(v.len() as int) =~= v@);
    }
    r
}

/// The number of items of a sequence or entries of a mapping.
pub open spec fn child_count(v: Yaml) -> int {
    match v {
        Yaml::List(items, _) => items@.len() as int,
        Yaml::Mapping(entries, _) => entries@.len() as int,
        _ => 0,
    }
}

/// The remote references named by `uses:` keys among the first `m` items or
/// entries of `v`, at any depth, in document order.
pub open spec fn yaml_uses_upto(v: Yaml, m: int) -> Seq<Seq<char>>
    decreases v, if m >= 0 { m as nat } else { 0nat },
{
    if m <= 0 || m > child_count(v) {
        Seq::empty()
    } else {
        match v {
            Yaml::List(items, _) => {
                proof {
                    vstd::std_specs::vec::axiom_vec_index_decreases(items, m - 1);
                    assert(decreases_to!(v => v->List_0));
                }
                yaml_uses_upto(v, m - 1) + yaml_uses_upto(items@[m - 1], child_count(items@[m - 1]))
            },
            Yaml::Mapping(entries, _) => {
                proof {
                    vstd::std_specs::vec::axiom_vec_index_decreases(entries, m - 1);
                    assert(decreases_to!(v => v->Mapping_0));
                    assert(decreases_to!(v => entries@[m - 1]));
                }
                let e = entries@[m - 1];
                yaml_uses_upto(v, m - 1) + own_uses(e.0, e.1) + yaml_uses_upto(e.1, child_count(e.1))
            },
            _ => Seq::empty(),
        }
    }
}

/// The reference of one mapping entry: its value, when the key is `uses`
/// and the value a remote reference.
pub open spec fn own_uses(k: Yaml, v: Yaml) -> Seq<Seq<char>> {
    if k.str_spec() == Some("uses"@) && v.str_spec() is Some && parse_remote_spec(v.str_spec()->0) is Some {
        seq![v.str_spec()->0]
    } else {
        Seq::empty()
    }
}

/// Every remote reference of a YAML document.
pub open spec fn yaml_uses(v: Yaml) -> Seq<Seq<char>> {
    yaml_uses_upto(v, child_count(v))
}

/// `rs` are the references `us`, parsed.
pub open spec fn refs_are(rs: Seq<RemoteRef>, us: Seq<Seq<char>>) -> bool {
    rs.len() == us.len() && forall|k: int| 0 <= k < rs.len() ==> (#[trigger] rs[k]).parsed_from(us[k])
}

proof fn lemma_refs_concat(a: Seq<RemoteRef>, x: Seq<Seq<char>>, b: Seq<RemoteRef>, y: Seq<Seq<char>>)
    requires
        refs_are(a, x),
        refs_are(b, y),
    ensures
        refs_are(a + b, x + y),
{
    assert forall|k: int| 0 <= k < (a + b).len() implies (#[trigger] (a + b)[k]).parsed_from((x + y)[k]) by {
        if k < a.len() {
            assert((a + b)[k] == a[k] && (x + y)[k] == x[k]);
        } else {
            assert((a + b)[k] == b[k - a.len()] && (x + y)[k] == y[k - a.len()]);
        }
    }
}

/// Append the remote references of `v` to `out`.
fn yaml_remotes_into(v: &Yaml, out: &mut Vec<RemoteRef>)
    ensures
        final(out)@.len() >= old(out)@.len(),
        final(out)@.take(old(out)@.len() as int) == old(out)@,
        refs_are(final(out)@.skip(old(out)@.len() as int), yaml_uses(*v)),
    decreases v,
{
    let ghost start = out@;
    let n: usize = match v {
        Yaml::List(items, _) => items.len(),
        Yaml::Mapping(entries, _) => entries.len(),
        _ => 0,
    };
    let mut i: usize = 0;
    proof {
        assert(out@.take(start.len() as int) =~= start);
        assert(out@.skip(start.len() as int) =~= Seq::<RemoteRef>::empty());
    }
    while i < n
        invariant
            i <= n,
            n == child_count(*v),
            out@.len() >= start.len(),
            out@.take(start.len() as int) == start,
            refs_are(out@.skip(start.len() as int), yaml_uses_upto(*v, i as int)),
        decreases n - i,
    {
        let ghost before = out@;
        match v {
            Yaml::List(items, _) => {
                proof {
                    vstd::std_specs::vec::axiom_vec_index_decreases(*items, i as int);
                    assert(decreases_to!(*v => (*v)->List_0));
                    assert(decreases_to!(*v => items[i as int]));
                }
                yaml_remotes_into(&items[i], out);
            },
            Yaml::Mapping(entries, _) => {
                proof {
                    vstd::std_specs::vec::axiom_vec_index_decreases(*entries, i as int);
                    assert(decreases_to!(*v => (*v)->Mapping_0));
                    assert(decreases_to!(*v => entries[i as int]));
                    assert(decreases_to!(*v => entries[i as int].1));
                }
                let (k, val) = &entries[i];
                if let (Some(key), Some(u)) = (k.as_str(), val.as_str()) {
                    if crate::smap::str_eq(key.as_str(), "uses") {
                        if let Ok(remote) = RemoteRef::parse(u.as_str()) {
                            out.push(remote);
                        }
                    }
                }
                let ghost mid = out@;
                proof {
                    assert(mid.skip(before.len() as int) =~= mid.subrange(before.len() as int, mid.len() as int));
                    assert(refs_are(mid.skip(before.len() as int), own_uses(*k, *val)));
                }
                yaml_remotes_into(val, out);
                proof {
                    let a = mid.skip(before.len() as int);
                    let b = out@.skip(mid.len() as int);
                    assert forall|q: int| 0 <= q < mid.len() implies out@[q] == mid[q] by {
                        assert(out@.take(mid.len() as int)[q] == mid[q]);
                    }
                    assert(out@.skip(before.len() as int) =~= a + b);
                    lemma_refs_concat(a, own_uses(*k, *val), b, yaml_uses(*val));
                }
            },
            _ => {},
        }
        proof {
            let prev = before.skip(start.len() as int);
            let added = out@.skip(before.len() as int);
            assert forall|q: int| 0 <= q < before.len() implies out@[q] == before[q] by {
                assert(out@.take(before.len() as int)[q] == before[q]);
            }
            assert(out@.skip(start.len() as int) =~= prev + added);
            assert(out@.take(start.len() as int) =~= start) by {
                assert forall|q: int| 0 <= q < start.len() implies out@[q] == start[q] by {
                    assert(before.take(start.len() as int)[q] == start[q]);
                }
            }
            match v {
                Yaml::List(items, _) => {
                    lemma_refs_concat(prev, yaml_uses_upto(*v, i as int), added, yaml_uses(items@[i as int]));
                    assert(yaml_uses_upto(*v, i + 1) == yaml_uses_upto(*v, i as int) + yaml_uses(items@[i as int]));
                },
                Yaml::Mapping(entries, _) => {
                    let e = entries@[i as int];
                    assert(yaml_uses_upto(*v, i + 1) == yaml_uses_upto(*v, i as int) + own_uses(e.0, e.1) + yaml_uses(e.1));
                    lemma_refs_concat(prev, yaml_uses_upto(*v, i as int), added, own_uses(e.0, e.1) + yaml_uses(e.1));
                },
                _ => {},
            }
        }
        i += 1;
    }
}

/// Every remote `uses:` reference named anywhere in a YAML document, in
/// document order (for following the references of a fetched action).
pub fn yaml_remotes(v: &Yaml) -> (r: Vec<RemoteRef>)
    ensures
        refs_are(r@, yaml_uses(*v)),
{
    let mut out: Vec<RemoteRef> = Vec::new();
    yaml_remotes_into(v, &mut out);
    proof {
        assert(out@.skip(0) =~= out@);
    }
    out
}

proof fn lemma_structural_concat(a: Seq<Finding>, b: Seq<Finding>)
    ensures
        structural(a + b) == structural(a) + structural(b),
    decreases b.len(),
{
    if b.len() == 0 {
        assert(a + b =~= a);
        assert(structural(a) + structural(b) =~= structural(a));
    } else {
        lemma_structural_concat(a, b.drop_last());
        assert((a + b).drop_last() =~= a + b.drop_last());
        assert((a + b).last() == b.last());
        if !is_condition_code(b.last().code@) {
            assert(structural(a) + structural(b.drop_last()).push(b.last()) =~= (structural(a) + structural(b.drop_last())).push(
                b.last(),
            ));
        }
    }
}

/// Re-evaluation keeps no condition finding.
pub proof fn lemma_structural_has_no_condition(fs: Seq<Finding>)
    ensures
        forall|i: int| 0 <= i < structural(fs).len() ==> !is_condition_code(#[trigger] structural(fs)[i].code@),
    decreases fs.len(),
{
    if fs.len() > 0 {
        lemma_structural_has_no_condition(fs.drop_last());
        let r = structural(fs.drop_last());
        if !is_condition_code(fs.last().code@) {
            assert forall|i: int| 0 <= i < r.push(fs.last()).len() implies !is_condition_code(#[trigger] r.push(fs.last())[i].code@) by {
                if i < r.len() {
                    assert(r.push(fs.last())[i] == r[i]);
                }
            }
        }
    }
}

/// Findings that are all condition findings leave nothing behind.
pub proof fn lemma_structural_of_conditions(cs: Seq<Finding>)
    requires
        forall|i: int| 0 <= i < cs.len() ==> is_condition_code(#[trigger] cs[i].code@),
    ensures
        structural(cs) == Seq::<Finding>::empty(),
    decreases cs.len(),
{
    if cs.len() > 0 {
        assert forall|i: int| 0 <= i < cs.drop_last().len() implies is_condition_code(#[trigger] cs.drop_last()[i].code@) by {
            assert(cs.drop_last()[i] == cs[i]);
        }
        lemma_structural_of_conditions(cs.drop_last());
        assert(is_condition_code(cs[cs.len() - 1].code@));
    }
}

/// Re-evaluating does not accumulate: keeping the structural findings of an
/// earlier re-evaluation's output (its structural findings followed by fresh
/// condition findings `cs`) gives the same structural findings again.
pub proof fn lemma_revaluate_stable(fs: Seq<Finding>, cs: Seq<Finding>)
    requires
        forall|i: int| 0 <= i < cs.len() ==> is_condition_code(#[trigger] cs[i].code@),
    ensures
        structural(structural(fs) + cs) == structural(fs),
{
    lemma_structural_concat(structural(fs), cs);
    lemma_structural_of_conditions(cs);
    lemma_structural_idempotent(fs);
    assert(structural(structural(fs)) + Seq::<Finding>::empty() =~= structural(structural(fs)));
}

/// Keeping the structural findings twice is keeping them once.
pub proof fn lemma_structural_idempotent(fs: Seq<Finding>)
    ensures
        structural(structural(fs)) == structural(fs),
    decreases fs.len(),
{
    if fs.len() > 0 {
        lemma_structural_idempotent(fs.drop_last());
        let r = structural(fs.drop_last());
        if !is_condition_code(fs.last().code@) {
            assert(r.push(fs.last()).drop_last() =~= r);
        }
    }
}

} // verus!
