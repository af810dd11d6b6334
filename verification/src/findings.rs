//! Catalog of user-facing findings with plain-language coaching text.
//!
//! Every constructor fills both `message` (what happened) and `coach` (why it
//! matters and what to try next), so no finding reaches a user without
//! actionable guidance.

use vstd::prelude::*;
use vstd::string::*;

use crate::text::{cat, cat3, join, join_strings, owned, usize_to_string, decimal, views};

verus! {

/// How serious a finding is; drives severity styling in the UI.
#[derive(Debug, Clone, Copy, PartialEq, Eq, Structural)]
pub enum Severity {
    Error,
    Warning,
    Info,
}

/// What a finding is about: a whole file, a job, or a single step.
#[derive(Debug, PartialEq, Eq)]
pub enum FindingTarget {
    File(String),
    Job { file: String, job: String },
    Step { file: String, job: String, step_idx: usize },
}

/// The view of a [`FindingTarget`].
pub enum STarget {
    File(Seq<char>),
    Job { file: Seq<char>, job: Seq<char> },
    Step { file: Seq<char>, job: Seq<char>, step_idx: nat },
}

impl FindingTarget {
    pub open spec fn tv(&self) -> STarget {
        match self {
            FindingTarget::File(f) => STarget::File(f@),
            FindingTarget::Job { file, job } => STarget::Job { file: file@, job: job@ },
            FindingTarget::Step { file, job, step_idx } => STarget::Step { file: file@, job: job@, step_idx: *step_idx as nat },
        }
    }
}

impl Clone for FindingTarget {
    fn clone(&self) -> (r: Self)
        ensures
            r == *self,
    {
        match self {
            FindingTarget::File(f) => FindingTarget::File(f.clone()),
            FindingTarget::Job { file, job } => FindingTarget::Job { file: file.clone(), job: job.clone() },
            FindingTarget::Step { file, job, step_idx } => FindingTarget::Step {
                file: file.clone(),
                job: job.clone(),
                step_idx: *step_idx,
            },
        }
    }
}

/// A single user-facing diagnostic with a machine-checkable `code` and human
/// coaching text.
#[derive(Debug, PartialEq, Eq)]
pub struct Finding {
    pub severity: Severity,
    pub code: &'static str,
    pub target: FindingTarget,
    pub message: String,
    pub coach: String,
}

impl Clone for Finding {
    fn clone(&self) -> (r: Self)
        ensures
            r == *self,
    {
        Finding {
            severity: self.severity,
            code: self.code,
            target: self.target.clone(),
            message: self.message.clone(),
            coach: self.coach.clone(),
        }
    }
}

pub const CYCLE_COACH_HEAD: &'static str = "Jobs ";
pub const CYCLE_COACH_TAIL: &'static str = " depend on each other in a loop through `needs:`, so none of them can ever run. Remove one of the `needs:` entries or restructure the jobs so dependencies only flow in one direction.";
pub const MISSING_NEED_COACH_1: &'static str = "`needs:` must name another job id defined in the same workflow file. Check `";
pub const MISSING_NEED_COACH_2: &'static str = "` for a typo in `";
pub const MISSING_NEED_COACH_3: &'static str = "`, or add a job with that id.";
pub const YAML_COACH: &'static str = "This file couldn't be read as a workflow, so none of its jobs can be shown. Open it in an editor with YAML linting, fix the indentation or syntax error near the location above, then reload.";
pub const EXPR_SYNTAX_COACH: &'static str = "GitHub Actions expressions must be wrapped in matching double-brace delimiters. Look for a missing closing brace or a stray opening brace nearby and fix the pairing.";
pub const DEFERRED_COACH: &'static str = "This construct is recognized but not fully evaluated yet, so the graph and run-state shown for it may be incomplete. Double-check this part manually or in GitHub's own Actions UI.";
pub const WHATIF_COACH: &'static str = "The workflow structure is modeled and shown in the inspector, but gha-see does not execute jobs, start containers, or simulate GitHub-side queues and protection rules. Verify runtime behavior in GitHub Actions when this detail affects deployment safety.";
pub const WRITE_ALL_MESSAGE: &'static str = "`permissions: write-all` is enabled for a pull request workflow";
pub const WRITE_ALL_COACH: &'static str = "A pull request workflow should usually grant only the token capabilities each job needs. Replace `write-all` with an explicit permission map, using `read` or `none` wherever write access is unnecessary.";
pub const TRIGGER_FILTER_COACH: &'static str = "This is a best-effort check of `push.branches` and `push.branches-ignore` against the Context sheet ref. GitHub applies additional event payload and filter semantics, so confirm complex patterns in GitHub Actions.";
pub const USES_REMOTE_COACH: &'static str = "Analysis is offline by default, so this reference remains Deferred. In the web UI, use Fetch or Fetch all to explicitly fetch and expand remote definitions, or inspect the pinned repository revision separately.";
pub const USES_FETCH_COACH: &'static str = "Other jobs were kept and analyzed. Check that the repository, path, and revision exist; for private repositories, set GITHUB_TOKEN or GH_TOKEN and press `f` again.";
pub const USES_MISSING_COACH: &'static str = "Local `uses:` paths are resolved from the repository root. Check the spelling and letter case, and ensure a local action directory contains `action.yml` or `action.yaml`.";
pub const WORKFLOW_CALL_COACH: &'static str = "A reusable workflow cannot eventually call itself. Remove one local `uses:` edge from this include chain so workflow expansion terminates.";
pub const COND_UNKNOWN_MESSAGE: &'static str = "Could not determine whether this condition will pass";
pub const COND_UNKNOWN_COACH: &'static str = "This `if:` condition uses a function or context field this tool's mock evaluator doesn't understand yet. The real outcome depends on the actual trigger, so treat this as unresolved rather than assuming it will run or be skipped.";
pub const MATRIX_EMPTY_COACH: &'static str = "After applying `exclude` (or because a matrix axis had no values), this job's `strategy.matrix` has no combinations left, so it will never run. Double-check the `matrix`/`exclude` values for a typo or an overly broad exclude rule.";
pub const MATRIX_CAP_COACH_1: &'static str = "This tool caps matrix expansion at ";
pub const MATRIX_CAP_COACH_2: &'static str = " instances per job so the graph and inspector stay usable. The remaining combinations aren't shown or evaluated here \u{2014} reduce the matrix size or check the workflow file directly if you need the full list.";
pub const MATRIX_UNSUPPORTED_COACH: &'static str = "This matrix uses a shape (an expression like `fromJSON(...)`, or non-scalar axis values) that this tool doesn't expand yet, so the job is shown as a single deferred node instead of its real instances. Double-check this job's combinations manually or in GitHub's own Actions UI.";
pub const COND_SKIP_COACH_1: &'static str = "The condition `";
pub const COND_SKIP_COACH_2: &'static str = "` evaluates to false against the current mock context, so this won't run. Adjust the context sheet (event, ref, or env) if you expected it to run.";

/// The finding for a `needs:` dependency cycle among `jobs` in `file`.
pub fn cycle(file: String, jobs: &[String]) -> (f: Finding)
    ensures
        f.severity == Severity::Error,
        f.code@ == "GHA_CYCLE"@,
        f.target == FindingTarget::File(file),
        f.message@ == "Dependency cycle detected among jobs: "@ + join(views(jobs@), " -> "@),
        f.coach@ == CYCLE_COACH_HEAD@ + join(views(jobs@), " -> "@) + CYCLE_COACH_TAIL@,
{
    let chain = join_strings(jobs, " -> ");
    Finding {
        severity: Severity::Error,
        code: "GHA_CYCLE",
        target: FindingTarget::File(file),
        message: cat("Dependency cycle detected among jobs: ", chain.as_str()),
        coach: cat3(CYCLE_COACH_HEAD, chain.as_str(), CYCLE_COACH_TAIL),
    }
}

/// The finding for job `job` naming `missing` in `needs:`, which no job of
/// `file` defines.
pub fn missing_need(file: String, job: &str, missing: &str) -> (f: Finding)
    ensures
        f.severity == Severity::Error,
        f.code@ == "GHA_MISSING_NEED"@,
        f.target matches FindingTarget::Job { file: tf, job: tj } && tf == file && tj@ == job@,
        f.message@ == "Job `"@ + job@ + "` needs `"@ + missing@ + "`, which doesn't exist in this workflow"@,
        f.coach@ == MISSING_NEED_COACH_1@ + job@ + MISSING_NEED_COACH_2@ + missing@ + MISSING_NEED_COACH_3@,
{
    let mut message = cat3("Job `", job, "` needs `");
    message.append(missing);
    message.append("`, which doesn't exist in this workflow");
    let mut coach = cat3(MISSING_NEED_COACH_1, job, MISSING_NEED_COACH_2);
    coach.append(missing);
    coach.append(MISSING_NEED_COACH_3);
    Finding {
        severity: Severity::Error,
        code: "GHA_MISSING_NEED",
        target: FindingTarget::Job { file, job: owned(job) },
        message,
        coach,
    }
}

/// The finding for a file that could not be parsed as workflow YAML; `err` is
/// the parser's own description.
pub fn yaml_parse(file: String, err: &str) -> (f: Finding)
    ensures
        f.severity == Severity::Error,
        f.code@ == "GHA_YAML"@,
        f.target == FindingTarget::File(file),
        f.message@ == "Failed to parse workflow YAML: "@ + err@,
        f.coach@ == YAML_COACH@,
{
    Finding {
        severity: Severity::Error,
        code: "GHA_YAML",
        target: FindingTarget::File(file),
        message: cat("Failed to parse workflow YAML: ", err),
        coach: owned(YAML_COACH),
    }
}

/// The finding for malformed `${{ ... }}` syntax at `target`.
pub fn expr_syntax(target: FindingTarget, detail: &str) -> (f: Finding)
    ensures
        f.severity == Severity::Warning,
        f.code@ == "GHA_EXPR_SYNTAX"@,
        f.target == target,
        f.message@ == "Expression syntax issue: "@ + detail@,
        f.coach@ == EXPR_SYNTAX_COACH@,
{
    Finding {
        severity: Severity::Warning,
        code: "GHA_EXPR_SYNTAX",
        target,
        message: cat("Expression syntax issue: ", detail),
        coach: owned(EXPR_SYNTAX_COACH),
    }
}

/// The finding for a construct at `target` that is recognized but not
/// evaluated, for `reason`.
pub fn deferred(target: FindingTarget, reason: &str) -> (f: Finding)
    ensures
        f.severity == Severity::Info,
        f.code@ == "GHA_DEFERRED"@,
        f.target == target,
        f.message@ == "Not evaluated in this version: "@ + reason@,
        f.coach@ == DEFERRED_COACH@,
{
    Finding {
        severity: Severity::Info,
        code: "GHA_DEFERRED",
        target,
        message: cat("Not evaluated in this version: ", reason),
        coach: owned(DEFERRED_COACH),
    }
}

/// The finding for a modeled construct whose runner-side behavior an offline
/// what-if cannot reproduce.
pub fn whatif_limit(target: FindingTarget, detail: &str) -> (f: Finding)
    ensures
        f.severity == Severity::Info,
        f.code@ == "GHA_WHATIF_LIMIT"@,
        f.target == target,
        f.message@ == "What-if limit: "@ + detail@,
        f.coach@ == WHATIF_COACH@,
{
    Finding {
        severity: Severity::Info,
        code: "GHA_WHATIF_LIMIT",
        target,
        message: cat("What-if limit: ", detail),
        coach: owned(WHATIF_COACH),
    }
}

/// The finding for `permissions: write-all` on a workflow that runs for pull
/// requests.
pub fn permissions_write_all(target: FindingTarget) -> (f: Finding)
    ensures
        f.severity == Severity::Warning,
        f.code@ == "GHA_PERMISSIONS_WRITE_ALL"@,
        f.target == target,
        f.message@ == WRITE_ALL_MESSAGE@,
        f.coach@ == WRITE_ALL_COACH@,
{
    Finding {
        severity: Severity::Warning,
        code: "GHA_PERMISSIONS_WRITE_ALL",
        target,
        message: owned(WRITE_ALL_MESSAGE),
        coach: owned(WRITE_ALL_COACH),
    }
}

/// The finding for a mock push ref excluded by the workflow's branch filters.
pub fn trigger_filter(target: FindingTarget, git_ref: &str) -> (f: Finding)
    ensures
        f.severity == Severity::Info,
        f.code@ == "GHA_TRIGGER_FILTER"@,
        f.target == target,
        f.message@ == "Mock push ref `"@ + git_ref@ + "` does not match this workflow's branch filters"@,
        f.coach@ == TRIGGER_FILTER_COACH@,
{
    Finding {
        severity: Severity::Info,
        code: "GHA_TRIGGER_FILTER",
        target,
        message: cat3("Mock push ref `", git_ref, "` does not match this workflow's branch filters"),
        coach: owned(TRIGGER_FILTER_COACH),
    }
}

/// The finding for a remote `uses:` reference left unresolved offline.
pub fn uses_remote(target: FindingTarget, uses: &str) -> (f: Finding)
    ensures
        f.severity == Severity::Info,
        f.code@ == "GHA_USES_REMOTE"@,
        f.target == target,
        f.message@ == "Remote `uses:` reference `"@ + uses@ + "` was not fetched"@,
        f.coach@ == USES_REMOTE_COACH@,
{
    Finding {
        severity: Severity::Info,
        code: "GHA_USES_REMOTE",
        target,
        message: cat3("Remote `uses:` reference `", uses, "` was not fetched"),
        coach: owned(USES_REMOTE_COACH),
    }
}

/// The finding for an explicit fetch of `uses` that failed with `detail`.
pub fn uses_fetch(target: FindingTarget, uses: &str, detail: &str) -> (f: Finding)
    ensures
        f.severity == Severity::Warning,
        f.code@ == "GHA_USES_FETCH"@,
        f.target == target,
        f.message@ == "Could not fetch remote `uses:` reference `"@ + uses@ + "`: "@ + detail@,
        f.coach@ == USES_FETCH_COACH@,
{
    let mut message = cat3("Could not fetch remote `uses:` reference `", uses, "`: ");
    message.append(detail);
    Finding {
        severity: Severity::Warning,
        code: "GHA_USES_FETCH",
        target,
        message,
        coach: owned(USES_FETCH_COACH),
    }
}

/// The finding for a local `uses:` path, or its action descriptor, that does
/// not exist.
pub fn uses_missing(target: FindingTarget, path: &str) -> (f: Finding)
    ensures
        f.severity == Severity::Error,
        f.code@ == "GHA_USES_MISSING"@,
        f.target == target,
        f.message@ == "Local `uses:` target `"@ + path@ + "` could not be found"@,
        f.coach@ == USES_MISSING_COACH@,
{
    Finding {
        severity: Severity::Error,
        code: "GHA_USES_MISSING",
        target,
        message: cat3("Local `uses:` target `", path, "` could not be found"),
        coach: owned(USES_MISSING_COACH),
    }
}

/// The finding for reusable workflow calls that form a local include cycle;
/// `chain` holds the displayed paths of the cycle in order.
pub fn workflow_call_cycle(file: String, chain: &[String]) -> (f: Finding)
    ensures
        f.severity == Severity::Error,
        f.code@ == "GHA_WORKFLOW_CALL"@,
        f.target == FindingTarget::File(file),
        f.message@ == "Reusable workflow call cycle detected: "@ + join(views(chain@), " -> "@),
        f.coach@ == WORKFLOW_CALL_COACH@,
{
    let display = join_strings(chain, " -> ");
    Finding {
        severity: Severity::Error,
        code: "GHA_WORKFLOW_CALL",
        target: FindingTarget::File(file),
        message: cat("Reusable workflow call cycle detected: ", display.as_str()),
        coach: owned(WORKFLOW_CALL_COACH),
    }
}

/// The finding for an `if:` condition at `target` that the mock evaluator
/// cannot resolve.
pub fn condition_unknown(target: FindingTarget) -> (f: Finding)
    ensures
        is_condition_unknown(f, target.tv()),
        f.severity == Severity::Warning,
        f.code@ == "GHA_COND_UNKNOWN"@,
        f.target == target,
        f.message@ == COND_UNKNOWN_MESSAGE@,
        f.coach@ == COND_UNKNOWN_COACH@,
{
    Finding {
        severity: Severity::Warning,
        code: "GHA_COND_UNKNOWN",
        target,
        message: owned(COND_UNKNOWN_MESSAGE),
        coach: owned(COND_UNKNOWN_COACH),
    }
}

/// The finding for a `strategy.matrix` of `job` that expands to nothing.
pub fn matrix_empty(file: String, job: &str) -> (f: Finding)
    ensures
        f.severity == Severity::Warning,
        f.code@ == "GHA_MATRIX_EMPTY"@,
        f.target matches FindingTarget::Job { file: tf, job: tj } && tf == file && tj@ == job@,
        f.message@ == "Job `"@ + job@ + "`'s `strategy.matrix` produces zero combinations"@,
        f.coach@ == MATRIX_EMPTY_COACH@,
{
    Finding {
        severity: Severity::Warning,
        code: "GHA_MATRIX_EMPTY",
        target: FindingTarget::Job { file, job: owned(job) },
        message: cat3("Job `", job, "`'s `strategy.matrix` produces zero combinations"),
        coach: owned(MATRIX_EMPTY_COACH),
    }
}

/// The finding for a `strategy.matrix` of `job` with `total` combinations, of
/// which only the first `cap` are kept.
pub fn matrix_cap(file: String, job: &str, total: usize, cap: usize) -> (f: Finding)
    ensures
        f.severity == Severity::Warning,
        f.code@ == "GHA_MATRIX_CAP"@,
        f.target matches FindingTarget::Job { file: tf, job: tj } && tf == file && tj@ == job@,
        f.message@ == "Job `"@ + job@ + "`'s `strategy.matrix` expands to "@ + decimal(total as nat)
            + " combinations; only the first "@ + decimal(cap as nat) + " are shown"@,
        f.coach@ == MATRIX_CAP_COACH_1@ + decimal(cap as nat) + MATRIX_CAP_COACH_2@,
{
    let total_s = usize_to_string(total);
    let cap_s = usize_to_string(cap);
    let mut message = cat3("Job `", job, "`'s `strategy.matrix` expands to ");
    message.append(total_s.as_str());
    message.append(" combinations; only the first ");
    message.append(cap_s.as_str());
    message.append(" are shown");
    Finding {
        severity: Severity::Warning,
        code: "GHA_MATRIX_CAP",
        target: FindingTarget::Job { file, job: owned(job) },
        message,
        coach: cat3(MATRIX_CAP_COACH_1, cap_s.as_str(), MATRIX_CAP_COACH_2),
    }
}

/// The finding for a `strategy.matrix` of `job` whose shape is not expanded,
/// for `reason`.
pub fn matrix_unsupported(file: String, job: &str, reason: &str) -> (f: Finding)
    ensures
        f.severity == Severity::Info,
        f.code@ == "GHA_MATRIX_UNSUPPORTED"@,
        f.target matches FindingTarget::Job { file: tf, job: tj } && tf == file && tj@ == job@,
        f.message@ == "Job `"@ + job@ + "`'s `strategy.matrix` isn't evaluated in this version: "@ + reason@,
        f.coach@ == MATRIX_UNSUPPORTED_COACH@,
{
    let mut message = cat3("Job `", job, "`'s `strategy.matrix` isn't evaluated in this version: ");
    message.append(reason);
    Finding {
        severity: Severity::Info,
        code: "GHA_MATRIX_UNSUPPORTED",
        target: FindingTarget::Job { file, job: owned(job) },
        message,
        coach: owned(MATRIX_UNSUPPORTED_COACH),
    }
}

/// The finding for an `if:` condition `expr` at `target` that evaluates to
/// false under the mock context.
pub fn condition_skips(target: FindingTarget, expr: &str) -> (f: Finding)
    ensures
        is_condition_skip(f, target.tv(), expr@),
        f.severity == Severity::Info,
        f.code@ == "GHA_COND_SKIP"@,
        f.target == target,
        f.message@ == "Skipped by condition: "@ + expr@,
        f.coach@ == COND_SKIP_COACH_1@ + expr@ + COND_SKIP_COACH_2@,
{
    Finding {
        severity: Severity::Info,
        code: "GHA_COND_SKIP",
        target,
        message: cat("Skipped by condition: ", expr),
        coach: cat3(COND_SKIP_COACH_1, expr, COND_SKIP_COACH_2),
    }
}

/// `f` is the finding that a condition skipped `target`: condition `expr`
/// evaluated to false.
pub open spec fn is_condition_skip(f: Finding, target: STarget, expr: Seq<char>) -> bool {
    &&& f.severity == Severity::Info
    &&& f.code@ == "GHA_COND_SKIP"@
    &&& f.target.tv() == target
    &&& f.message@ == "Skipped by condition: "@ + expr
    &&& f.coach@ == COND_SKIP_COACH_1@ + expr + COND_SKIP_COACH_2@
}

/// `f` is the finding that the condition of `target` could not be decided.
pub open spec fn is_condition_unknown(f: Finding, target: STarget) -> bool {
    &&& f.severity == Severity::Warning
    &&& f.code@ == "GHA_COND_UNKNOWN"@
    &&& f.target.tv() == target
    &&& f.message@ == COND_UNKNOWN_MESSAGE@
    &&& f.coach@ == COND_UNKNOWN_COACH@
}

} // verus!
