//! The decisions of `uses:` resolution: which references are local, how an
//! action's metadata fills in a step, how a called reusable workflow's
//! instances are inlined into the caller, and what a reference that cannot
//! be resolved turns into. Reading the referenced files is left to the
//! caller, which hands in what it read.

use vstd::prelude::*;

use crate::findings::{uses_missing, uses_remote, workflow_call_cycle, Finding, FindingTarget, Severity,
    USES_MISSING_COACH, USES_REMOTE_COACH, WORKFLOW_CALL_COACH};
use crate::ir::{copy_strings, normalize_action_step, step_normalized, text_pairs_map, Job, JobInstance, Step,
    SupportTier, WorkflowFile};
use crate::parse::RawStep;
use crate::smap::{str_eq, StrMap};
use crate::text::{eq_ignore_case, has_prefix, join, owned, push_char, same_nocase, starts_with, views};
use crate::yaml::Yaml;

verus! {

/// How deep local action and reusable workflow references are followed.
pub const MAX_USES_DEPTH: usize = 8;

/// A `uses:` reference that names a path inside the repository.
pub open spec fn is_local_spec(uses: Seq<char>) -> bool {
    has_prefix(uses, "./"@) || has_prefix(uses, ".github/"@)
}

/// Whether `uses` names a path inside the repository.
pub fn is_local(uses: &str) -> (r: bool)
    ensures
        r == is_local_spec(uses@),
{
    starts_with(uses, "./") || starts_with(uses, ".github/")
}

/// The id `id` of a called workflow, inside the caller's job `prefix`.
pub open spec fn prefixed_spec(prefix: Seq<char>, id: Seq<char>) -> Seq<char> {
    prefix + seq!['>'] + id
}

/// `prefix>id`.
pub fn prefixed(prefix: &str, id: &str) -> (r: String)
    ensures
        r@ == prefixed_spec(prefix@, id@),
{
    let mut s = owned(prefix);
    push_char(&mut s, '>');
    let mut t = owned(s.as_str());
    t.append(id);
    t
}

/// The finding for a `uses:` reference that could not be resolved: a local
/// path that is missing, or a remote reference that was not fetched.
pub fn unresolved_finding(target: FindingTarget, uses: &str) -> (f: Finding)
    ensures
        f.target == target,
        is_local_spec(uses@) ==> f.severity == Severity::Error && f.code@ == "GHA_USES_MISSING"@
            && f.message@ == "Local `uses:` target `"@ + uses@ + "` could not be found"@
            && f.coach@ == USES_MISSING_COACH@,
        !is_local_spec(uses@) ==> f.severity == Severity::Info && f.code@ == "GHA_USES_REMOTE"@
            && f.message@ == "Remote `uses:` reference `"@ + uses@ + "` was not fetched"@
            && f.coach@ == USES_REMOTE_COACH@,
{
    if is_local(uses) {
        uses_missing(target, uses)
    } else {
        uses_remote(target, uses)
    }
}

/// The first position of `x` in `s`, if any.
pub open spec fn first_index(s: Seq<Seq<char>>, x: Seq<char>) -> Option<int>
    decreases s.len(),
{
    if s.len() == 0 {
        None
    } else {
        match first_index(s.drop_last(), x) {
            Some(i) => Some(i),
            None => if s.last() == x {
                Some(s.len() - 1)
            } else {
                None
            },
        }
    }
}

/// When `target` is already on the stack of workflows being expanded, the
/// call chain from its first occurrence back to it.
pub fn call_cycle_chain(stack: &Vec<String>, target: &str) -> (r: Option<Vec<String>>)
    ensures
        match first_index(views(stack@), target@) {
            None => r is None,
            Some(i) => r matches Some(chain) && views(chain@) == views(stack@).skip(i).push(target@),
        },
{
    let mut i: usize = 0;
    while i < stack.len()
        invariant
            i <= stack.len(),
            first_index(views(stack@).take(i as int), target@) is None,
        decreases stack.len() - i,
    {
        proof {
            assert(views(stack@).take(i + 1).drop_last() =~= views(stack@).take(i as int));
        }
        if str_eq(stack[i].as_str(), target) {
            let mut chain: Vec<String> = Vec::new();
            let mut k: usize = i;
            while k < stack.len()
                invariant
                    i <= k <= stack.len(),
                    views(chain@) == views(stack@).subrange(i as int, k as int),
                decreases stack.len() - k,
            {
                let ghost before = views(chain@);
                chain.push(stack[k].clone());
                proof {
                    assert(views(chain@) =~= before.push(stack@[k as int]@));
                    assert(views(chain@) =~= views(stack@).subrange(i as int, k + 1));
                }
                k += 1;
            }
            let ghost before = views(chain@);
            chain.push(owned(target));
            proof {
                assert(views(chain@) =~= before.push(target@));
                assert(views(stack@).subrange(i as int, stack.len() as int) =~= views(stack@).skip(i as int));
                assert(first_index(views(stack@).take(i + 1), target@) == Some(i as int));
                lemma_first_index_extend(views(stack@), target@, i + 1);
            }
            return Some(chain);
        }
        i += 1;
    }
    proof {
        assert(views(stack@).take(stack.len() as int) =~= views(stack@));
    }
    None
}

proof fn lemma_first_index_extend(s: Seq<Seq<char>>, x: Seq<char>, m: int)
    requires
        0 <= m <= s.len(),
        first_index(s.take(m), x) is Some,
    ensures
        first_index(s, x) == first_index(s.take(m), x),
    decreases s.len() - m,
{
    if m < s.len() {
        assert(s.take(m + 1).drop_last() =~= s.take(m));
        lemma_first_index_extend(s, x, m + 1);
    } else {
        assert(s.take(m) =~= s);
    }
}

/// Mark a step whose action could not be expanded: deferred, with `reason`
/// added to its reasons when there is one.
pub fn defer_step(step: &mut Step, reason: Option<&str>)
    ensures
        final(step).support == SupportTier::Deferred,
        views(final(step).deferred_reasons@) == match reason {
            Some(r) => views(old(step).deferred_reasons@).push(r@),
            None => views(old(step).deferred_reasons@),
        },
        final(step).name == old(step).name,
        final(step).id == old(step).id,
        final(step).uses == old(step).uses,
        final(step).run == old(step).run,
        final(step).shell == old(step).shell,
        final(step).working_directory == old(step).working_directory,
        final(step).condition == old(step).condition,
        final(step).with_inputs == old(step).with_inputs,
        final(step).env == old(step).env,
        final(step).resolved_action_name == old(step).resolved_action_name,
        final(step).action_runner == old(step).action_runner,
        final(step).composite_steps == old(step).composite_steps,
{
    step.support = SupportTier::Deferred;
    if let Some(r) = reason {
        let ghost before = views(step.deferred_reasons@);
        step.deferred_reasons.push(owned(r));
        proof {
            assert(views(step.deferred_reasons@) =~= before.push(r@));
        }
    }
}

/// The reason recorded on a step whose `uses:` chain is too deep.
pub fn depth_reason() -> (r: String)
    ensures
        r@ == "uses expansion exceeded depth 8"@,
{
    owned("uses expansion exceeded depth 8")
}

/// The reason recorded on a step whose composite actions use each other in a
/// cycle.
pub fn cycle_reason() -> (r: String)
    ensures
        r@ == "composite action uses cycle"@,
{
    owned("composite action uses cycle")
}

/// Whether a file named `name` is an action's metadata file.
pub fn is_action_file_name(name: &str) -> (r: bool)
    ensures
        r == (name@ == "action.yml"@ || name@ == "action.yaml"@),
{
    str_eq(name, "action.yml") || str_eq(name, "action.yaml")
}

/// The path a local `uses:` names, relative to the repository root: without
/// a leading `./`.
pub fn local_relative(uses: &str) -> (r: String)
    ensures
        r@ == if has_prefix(uses@, "./"@) {
            uses@.skip(2)
        } else {
            uses@
        },
{
    match crate::text::strip_prefix(uses, "./") {
        Some(rest) => {
            proof {
                reveal_strlit("./");
            }
            rest
        },
        None => owned(uses),
    }
}

/// What an action's `action.yml` says: its name, its inputs with their
/// defaults, how it runs, and for a composite action its steps.
pub struct ActionMeta {
    pub name: Option<String>,
    pub inputs: Vec<(String, Option<Yaml>)>,
    pub using: String,
    pub steps: Vec<RawStep>,
}

/// The inputs that have a default, in order.
pub open spec fn with_defaults(inputs: Seq<(String, Option<Yaml>)>) -> Seq<(String, Yaml)>
    decreases inputs.len(),
{
    if inputs.len() == 0 {
        Seq::empty()
    } else {
        let r = with_defaults(inputs.drop_last());
        match inputs.last().1 {
            Some(v) => r.push((inputs.last().0, v)),
            None => r,
        }
    }
}

/// The step's inputs once its action is known: the action's defaults, then
/// the step's own `with:` values on top.
pub open spec fn merged_inputs(defaults: Map<Seq<char>, Seq<char>>, own: Map<Seq<char>, Seq<char>>) -> Map<Seq<char>, Seq<char>> {
    defaults.union_prefer_right(own)
}

/// Fill in `step` from its action's metadata: the action's input defaults
/// under the step's own inputs, the action's name and runner. A non-composite
/// action leaves the step supported and done (result `false`); a composite
/// one also gets the action's steps, normalized, which the caller resolves in
/// turn (result `true`). Either way the step is supported and its deferral
/// reasons are cleared.
pub fn apply_action(step: &mut Step, action: ActionMeta) -> (composite: bool)
    ensures
        composite == same_nocase(action.using@, "composite"@),
        final(step).with_inputs.map_view() == merged_inputs(
            text_pairs_map(with_defaults(action.inputs@)),
            old(step).with_inputs.map_view(),
        ),
        final(step).resolved_action_name == action.name,
        final(step).action_runner matches Some(u) && u@ == action.using@,
        final(step).support == SupportTier::Supported,
        final(step).deferred_reasons@.len() == 0,
        composite ==> final(step).composite_steps@.len() == action.steps@.len() && forall|i: int|
            0 <= i < action.steps@.len() ==> step_normalized(
                #[trigger] final(step).composite_steps@[i],
                action.steps@[i],
                None,
                None,
            ),
        !composite ==> final(step).composite_steps == old(step).composite_steps,
        final(step).name == old(step).name,
        final(step).id == old(step).id,
        final(step).uses == old(step).uses,
        final(step).run == old(step).run,
        final(step).shell == old(step).shell,
        final(step).working_directory == old(step).working_directory,
        final(step).condition == old(step).condition,
        final(step).env == old(step).env,
{
    let ActionMeta { name, inputs, using, steps } = action;
    let mut defaults: Vec<(String, Yaml)> = Vec::new();
    let mut i: usize = 0;
    let n = inputs.len();
    let mut rest = inputs;
    let ghost all = rest@;
    while i < n
        invariant
            i <= n == all.len(),
            rest@ == all.skip(i as int),
            defaults@ == with_defaults(all.take(i as int)),
        decreases n - i,
    {
        let (k, v) = rest.remove(0);
        proof {
            assert(all.take(i + 1).drop_last() =~= all.take(i as int));
            assert(all.take(i + 1).last() == all[i as int]);
            assert(all.skip(i + 1) =~= all.skip(i as int).drop_first());
        }
        match v {
            Some(y) => defaults.push((k, y)),
            None => {},
        }
        i += 1;
    }
    proof {
        assert(all.take(n as int) =~= all);
    }
    let mut merged = crate::ir::stringify_scalar_map(&defaults);
    merged.overlay(&step.with_inputs);
    proof {
        assert(merged.map_view() =~= merged_inputs(text_pairs_map(defaults@), step.with_inputs.map_view())) by {
            assert forall|q: Seq<char>| #[trigger] merged.map_view().contains_key(q) == merged_inputs(
                text_pairs_map(defaults@),
                step.with_inputs.map_view(),
            ).contains_key(q) by {
                let _ = merged.get_spec(q);
                let _ = step.with_inputs.get_spec(q);
            }
            assert forall|q: Seq<char>| merged.map_view().contains_key(q) implies #[trigger] merged.map_view()[q]
                == merged_inputs(text_pairs_map(defaults@), step.with_inputs.map_view())[q] by {
                let _ = merged.get_spec(q);
                let _ = step.with_inputs.get_spec(q);
            }
        }
    }
    step.with_inputs = merged;
    step.resolved_action_name = name;
    let composite = eq_ignore_case(using.as_str(), "composite");
    step.action_runner = Some(using);
    step.support = SupportTier::Supported;
    step.deferred_reasons = Vec::new();
    if composite {
        let mut children: Vec<Step> = Vec::new();
        let m = steps.len();
        let ghost raws = steps@;
        let mut rest = steps;
        let mut j: usize = 0;
        while j < m
            invariant
                j <= m == raws.len(),
                rest@ == raws.skip(j as int),
                children@.len() == j,
                forall|q: int| 0 <= q < j ==> step_normalized(#[trigger] children@[q], raws[q], None, None),
            decreases m - j,
        {
            let raw = rest.remove(0);
            proof {
                assert(raws.skip(j + 1) =~= raws.skip(j as int).drop_first());
            }
            children.push(normalize_action_step(raw));
            j += 1;
        }
        step.composite_steps = children;
    }
    composite
}

/// `j` with support `s`.
pub open spec fn job_with_support(j: Job, s: SupportTier) -> Job {
    Job { support: s, ..j }
}

/// `i` with support `s`.
pub open spec fn instance_with_support(i: JobInstance, s: SupportTier) -> JobInstance {
    JobInstance { support: s, ..i }
}

// ---------------------------------------------------------------------------
// Settling one reference from what its files showed
// ---------------------------------------------------------------------------

/// `f` is the finding for a `uses:` reference `uses` that could not be
/// resolved, reported on `target`.
pub open spec fn is_unresolved(f: Finding, target: FindingTarget, uses: Seq<char>) -> bool {
    &&& f.target == target
    &&& is_local_spec(uses) ==> f.severity == Severity::Error && f.code@ == "GHA_USES_MISSING"@ && f.message@
        == "Local `uses:` target `"@ + uses + "` could not be found"@ && f.coach@ == USES_MISSING_COACH@
    &&& !is_local_spec(uses) ==> f.severity == Severity::Info && f.code@ == "GHA_USES_REMOTE"@ && f.message@
        == "Remote `uses:` reference `"@ + uses + "` was not fetched"@ && f.coach@ == USES_REMOTE_COACH@
}

/// `new` is `old` deferred, with `reason` added to its reasons when there is
/// one; nothing else changed.
pub open spec fn step_deferred(new: Step, old: Step, reason: Option<Seq<char>>) -> bool {
    &&& new.support == SupportTier::Deferred
    &&& views(new.deferred_reasons@) == match reason {
        Some(r) => views(old.deferred_reasons@).push(r),
        None => views(old.deferred_reasons@),
    }
    &&& new.name == old.name
    &&& new.id == old.id
    &&& new.uses == old.uses
    &&& new.run == old.run
    &&& new.shell == old.shell
    &&& new.working_directory == old.working_directory
    &&& new.condition == old.condition
    &&& new.with_inputs == old.with_inputs
    &&& new.env == old.env
    &&& new.resolved_action_name == old.resolved_action_name
    &&& new.action_runner == old.action_runner
    &&& new.composite_steps == old.composite_steps
}

/// `new` is `old` filled in from `action`'s metadata; `composite` tells
/// whether the action is a composite one, whose steps `new` now holds.
pub open spec fn step_applied(new: Step, old: Step, action: ActionMeta, composite: bool) -> bool {
    &&& composite == same_nocase(action.using@, "composite"@)
    &&& new.with_inputs.map_view() == merged_inputs(
        text_pairs_map(with_defaults(action.inputs@)),
        old.with_inputs.map_view(),
    )
    &&& new.resolved_action_name == action.name
    &&& new.action_runner matches Some(u) && u@ == action.using@
    &&& new.support == SupportTier::Supported
    &&& new.deferred_reasons@.len() == 0
    &&& composite ==> new.composite_steps@.len() == action.steps@.len() && forall|i: int|
        0 <= i < action.steps@.len() ==> step_normalized(#[trigger] new.composite_steps@[i], action.steps@[i], None, None)
    &&& !composite ==> new.composite_steps == old.composite_steps
    &&& new.name == old.name
    &&& new.id == old.id
    &&& new.uses == old.uses
    &&& new.run == old.run
    &&& new.shell == old.shell
    &&& new.working_directory == old.working_directory
    &&& new.condition == old.condition
    &&& new.env == old.env
}

/// What the files showed about the action a `uses:` step names.
pub enum ActionLookup {
    /// No action file was found for the reference.
    Missing,
    /// The action is already being expanded further up: the composite
    /// actions use each other.
    Cycle,
    /// The action file was found but could not be read as an action.
    Unreadable,
    /// The action's metadata.
    Found(ActionMeta),
}

/// Settle a step from what its `uses:` reference showed. A step without
/// `uses:` is left as it is. Below the depth limit the lookup decides: a
/// missing or unreadable action defers the step with a finding, a cycle
/// defers it with the cycle reason, and a found action fills it in. At the
/// limit the step is deferred with the depth reason and the lookup is not
/// consulted. The result's second part tells whether the step's composite
/// steps are to be resolved in turn, one level deeper.
pub fn settle_step(step: &mut Step, depth: usize, lookup: Option<ActionLookup>, target: FindingTarget) -> (r: (
    Option<Finding>,
    bool,
))
    requires
        old(step).uses is Some && depth < MAX_USES_DEPTH ==> lookup is Some,
    ensures
        match old(step).uses {
            None => *final(step) == *old(step) && r.0 is None && !r.1,
            Some(u) => if depth >= MAX_USES_DEPTH {
                step_deferred(*final(step), *old(step), Some("uses expansion exceeded depth 8"@)) && r.0 is None
                    && !r.1
            } else {
                match lookup {
                    Some(ActionLookup::Missing) | Some(ActionLookup::Unreadable) => step_deferred(
                        *final(step),
                        *old(step),
                        None,
                    ) && (r.0 matches Some(f) && is_unresolved(f, target, u@)) && !r.1,
                    Some(ActionLookup::Cycle) => step_deferred(
                        *final(step),
                        *old(step),
                        Some("composite action uses cycle"@),
                    ) && r.0 is None && !r.1,
                    Some(ActionLookup::Found(a)) => step_applied(*final(step), *old(step), a, r.1) && r.0 is None,
                    None => false,
                }
            },
        },
{
    let uses = match &step.uses {
        None => return (None, false),
        Some(u) => u.clone(),
    };
    if depth >= MAX_USES_DEPTH {
        let reason = depth_reason();
        defer_step(step, Some(reason.as_str()));
        return (None, false);
    }
    match lookup {
        Some(ActionLookup::Missing) | Some(ActionLookup::Unreadable) => {
            let f = unresolved_finding(target, uses.as_str());
            defer_step(step, None);
            (Some(f), false)
        },
        Some(ActionLookup::Cycle) => {
            let reason = cycle_reason();
            defer_step(step, Some(reason.as_str()));
            (None, false)
        },
        Some(ActionLookup::Found(a)) => {
            let composite = apply_action(step, a);
            (None, composite)
        },
        None => (None, false),
    }
}

/// Mark the reusable-workflow call job `call_id`, and every instance of it,
/// deferred; nothing else changes.
pub fn defer_call(wf: &mut WorkflowFile, call_id: &str)
    ensures
        *final(wf) == (WorkflowFile { jobs: final(wf).jobs, instances: final(wf).instances, ..*old(wf) }),
        final(wf).jobs@.len() == old(wf).jobs@.len(),
        forall|i: int| 0 <= i < old(wf).jobs@.len() ==> (#[trigger] final(wf).jobs@[i]).0 == old(wf).jobs@[i].0
            && final(wf).jobs@[i].1 == if old(wf).jobs@[i].0 == call_id@ {
                job_with_support(old(wf).jobs@[i].1, SupportTier::Deferred)
            } else {
                old(wf).jobs@[i].1
            },
        final(wf).instances@.len() == old(wf).instances@.len(),
        forall|i: int| 0 <= i < old(wf).instances@.len() ==> (#[trigger] final(wf).instances@[i]).0 == old(wf).instances@[i].0
            && final(wf).instances@[i].1 == if old(wf).instances@[i].1.base_id@ == call_id@ {
                instance_with_support(old(wf).instances@[i].1, SupportTier::Deferred)
            } else {
                old(wf).instances@[i].1
            },
{
    let ghost jobs0 = wf.jobs@;
    let mut rest = wf.jobs.take_entries();
    let ghost ents = rest@;
    let n = rest.len();
    let mut out: Vec<(String, Job)> = Vec::new();
    let mut i: usize = 0;
    while i < n
        invariant
            i <= n == ents.len(),
            crate::smap::entry_views(ents) == jobs0,
            crate::smap::strictly_sorted(jobs0),
            rest@ == ents.skip(i as int),
            out@.len() == i,
            forall|k: int| 0 <= k < i ==> (#[trigger] out@[k]).0 == ents[k].0 && out@[k].1 == if ents[k].0@ == call_id@ {
                job_with_support(ents[k].1, SupportTier::Deferred)
            } else {
                ents[k].1
            },
        decreases n - i,
    {
        let (k, mut j) = rest.remove(0);
        proof {
            assert(ents.skip(i + 1) =~= ents.skip(i as int).drop_first());
        }
        if str_eq(k.as_str(), call_id) {
            j.support = SupportTier::Deferred;
        }
        out.push((k, j));
        i += 1;
    }
    proof {
        assert forall|a: int, b: int| 0 <= a < b < out@.len() implies crate::smap::lex_lt(
            #[trigger] crate::smap::entry_views(out@)[a].0,
            #[trigger] crate::smap::entry_views(out@)[b].0,
        ) by {
            assert(jobs0[a].0 == ents[a].0@);
            assert(jobs0[b].0 == ents[b].0@);
        }
    }
    wf.jobs = StrMap::from_entries(out);
    let ghost insts0 = wf.instances@;
    let mut rest = wf.instances.take_entries();
    let ghost ents = rest@;
    let n = rest.len();
    let mut out: Vec<(String, JobInstance)> = Vec::new();
    let mut i: usize = 0;
    while i < n
        invariant
            i <= n == ents.len(),
            crate::smap::entry_views(ents) == insts0,
            crate::smap::strictly_sorted(insts0),
            rest@ == ents.skip(i as int),
            out@.len() == i,
            forall|k: int| 0 <= k < i ==> (#[trigger] out@[k]).0 == ents[k].0 && out@[k].1 == if ents[k].1.base_id@ == call_id@ {
                instance_with_support(ents[k].1, SupportTier::Deferred)
            } else {
                ents[k].1
            },
        decreases n - i,
    {
        let (k, mut inst) = rest.remove(0);
        proof {
            assert(ents.skip(i + 1) =~= ents.skip(i as int).drop_first());
        }
        if str_eq(inst.base_id.as_str(), call_id) {
            inst.support = SupportTier::Deferred;
        }
        out.push((k, inst));
        i += 1;
    }
    proof {
        assert forall|a: int, b: int| 0 <= a < b < out@.len() implies crate::smap::lex_lt(
            #[trigger] crate::smap::entry_views(out@)[a].0,
            #[trigger] crate::smap::entry_views(out@)[b].0,
        ) by {
            assert(insts0[a].0 == ents[a].0@);
            assert(insts0[b].0 == ents[b].0@);
        }
    }
    wf.instances = StrMap::from_entries(out);
}

/// A job that calls a reusable workflow: its id, the `uses:` reference, its
/// `with:` inputs and its `needs:`.
pub struct ReusableCall {
    pub id: String,
    pub uses: String,
    pub inputs: StrMap<String>,
    pub needs: Vec<String>,
}

/// The positions below `m` of the jobs that call a reusable workflow.
pub open spec fn call_positions(jobs: Seq<(Seq<char>, Job)>, m: int) -> Seq<int>
    decreases m,
{
    if m <= 0 {
        Seq::empty()
    } else {
        let r = call_positions(jobs, m - 1);
        if jobs[m - 1].1.uses is Some {
            r.push(m - 1)
        } else {
            r
        }
    }
}

/// `c` is the call made by job `j`.
pub open spec fn call_of(c: ReusableCall, j: Job) -> bool {
    &&& c.id@ == j.id@
    &&& j.uses matches Some(u) && c.uses@ == u@
    &&& c.inputs@ == j.with_inputs@
    &&& c.needs@ == j.needs@
}

/// The reusable-workflow calls of `wf`, in job id order.
pub fn reusable_calls(wf: &WorkflowFile) -> (r: Vec<ReusableCall>)
    ensures
        r@.len() == call_positions(wf.jobs@, wf.jobs@.len() as int).len(),
        forall|k: int| 0 <= k < r@.len() ==> call_of(#[trigger] r@[k], wf.jobs@[call_positions(wf.jobs@, wf.jobs@.len() as int)[k]].1),
{
    let n = wf.jobs.len();
    let mut r: Vec<ReusableCall> = Vec::new();
    let mut i: usize = 0;
    while i < n
        invariant
            i <= n == wf.jobs@.len(),
            r@.len() == call_positions(wf.jobs@, i as int).len(),
            forall|k: int| 0 <= k < r@.len() ==> call_of(#[trigger] r@[k], wf.jobs@[call_positions(wf.jobs@, i as int)[k]].1),
        decreases n - i,
    {
        let job = wf.jobs.value_at(i);
        if let Some(u) = &job.uses {
            let c = ReusableCall {
                id: job.id.clone(),
                uses: u.clone(),
                inputs: job.with_inputs.duplicate(),
                needs: copy_strings(&job.needs),
            };
            let ghost before = r@;
            r.push(c);
            proof {
                let p = call_positions(wf.jobs@, i + 1);
                assert(p == call_positions(wf.jobs@, i as int).push(i as int));
                assert forall|k: int| 0 <= k < r@.len() implies call_of(#[trigger] r@[k], wf.jobs@[p[k]].1) by {
                    if k < before.len() {
                        assert(r@[k] == before[k]);
                    }
                }
            }
        }
        i += 1;
    }
    r
}

/// After step resolution: every instance takes the steps of its logical job.
pub fn refresh_instance_steps(wf: &mut WorkflowFile)
    ensures
        *final(wf) == (WorkflowFile { instances: final(wf).instances, ..*old(wf) }),
        final(wf).instances@.len() == old(wf).instances@.len(),
        forall|i: int| 0 <= i < old(wf).instances@.len() ==> {
            let o = #[trigger] old(wf).instances@[i];
            let f = final(wf).instances@[i];
            &&& f.0 == o.0
            &&& f.1 == (JobInstance { steps: f.1.steps, ..o.1 })
            &&& match old(wf).jobs.get_spec(o.1.base_id@) {
                Some(job) => f.1.steps@.len() == job.steps@.len() && forall|s: int| 0 <= s < job.steps@.len() ==> #[trigger] crate::ir::same_step(f.1.steps@[s], job.steps@[s]),
                None => f.1.steps == o.1.steps,
            }
        },
{
    let ghost insts0 = wf.instances@;
    let mut rest = wf.instances.take_entries();
    let ghost ents = rest@;
    let n = rest.len();
    let mut out: Vec<(String, JobInstance)> = Vec::new();
    let mut i: usize = 0;
    while i < n
        invariant
            i <= n == ents.len(),
            crate::smap::entry_views(ents) == insts0,
            crate::smap::strictly_sorted(insts0),
            rest@ == ents.skip(i as int),
            out@.len() == i,
            forall|k: int| 0 <= k < i ==> {
                let f = #[trigger] out@[k];
                &&& f.0 == ents[k].0
                &&& f.1 == (JobInstance { steps: f.1.steps, ..ents[k].1 })
                &&& match wf.jobs.get_spec(ents[k].1.base_id@) {
                    Some(job) => f.1.steps@.len() == job.steps@.len() && forall|s: int| 0 <= s < job.steps@.len() ==> #[trigger] crate::ir::same_step(f.1.steps@[s], job.steps@[s]),
                    None => f.1.steps == ents[k].1.steps,
                }
            },
        decreases n - i,
    {
        let (k, mut inst) = rest.remove(0);
        proof {
            assert(ents.skip(i + 1) =~= ents.skip(i as int).drop_first());
        }
        match wf.jobs.get(inst.base_id.as_str()) {
            Some(job) => {
                inst.steps = crate::ir::copy_steps(&job.steps);
            },
            None => {},
        }
        out.push((k, inst));
        i += 1;
    }
    proof {
        assert forall|a: int, b: int| 0 <= a < b < out@.len() implies crate::smap::lex_lt(
            #[trigger] crate::smap::entry_views(out@)[a].0,
            #[trigger] crate::smap::entry_views(out@)[b].0,
        ) by {
            assert(insts0[a].0 == ents[a].0@);
            assert(insts0[b].0 == ents[b].0@);
        }
    }
    wf.instances = StrMap::from_entries(out);
    proof {
        assert forall|i: int| 0 <= i < insts0.len() implies #[trigger] wf.instances@[i].0 == insts0[i].0 by {
            assert(insts0[i].0 == ents[i].0@);
        }
    }
}

/// `f` is the finding for a reference `uses` that is followed no deeper,
/// reported on `target`.
pub open spec fn is_too_deep(f: Finding, target: FindingTarget, uses: Seq<char>) -> bool {
    &&& f.severity == Severity::Info
    &&& f.code@ == "GHA_USES_REMOTE"@
    &&& f.target == target
    &&& f.message@ == "Remote `uses:` reference `"@ + uses + "` was not fetched"@
    &&& f.coach@ == USES_REMOTE_COACH@
}

/// `f` is the finding for the reusable-workflow call cycle `chain`, reported
/// on `file`.
pub open spec fn is_call_cycle(f: Finding, file: String, chain: Seq<String>) -> bool {
    &&& f.severity == Severity::Error
    &&& f.code@ == "GHA_WORKFLOW_CALL"@
    &&& f.target == FindingTarget::File(file)
    &&& f.message@ == "Reusable workflow call cycle detected: "@ + join(views(chain), " -> "@)
    &&& f.coach@ == WORKFLOW_CALL_COACH@
}

/// `new` is `old` with the call job `id`, and every instance of it,
/// deferred; nothing else changed.
pub open spec fn calls_deferred(new: WorkflowFile, old: WorkflowFile, id: Seq<char>) -> bool {
    &&& new == (WorkflowFile { jobs: new.jobs, instances: new.instances, ..old })
    &&& new.jobs@.len() == old.jobs@.len()
    &&& forall|i: int| 0 <= i < old.jobs@.len() ==> (#[trigger] new.jobs@[i]).0 == old.jobs@[i].0 && new.jobs@[i].1
        == if old.jobs@[i].0 == id {
        job_with_support(old.jobs@[i].1, SupportTier::Deferred)
    } else {
        old.jobs@[i].1
    }
    &&& new.instances@.len() == old.instances@.len()
    &&& forall|i: int| 0 <= i < old.instances@.len() ==> (#[trigger] new.instances@[i]).0 == old.instances@[i].0
        && new.instances@[i].1 == if old.instances@[i].1.base_id@ == id {
        instance_with_support(old.instances@[i].1, SupportTier::Deferred)
    } else {
        old.instances@[i].1
    }
}

/// What the files showed about the workflow a reusable-workflow call names.
pub enum CallLookup {
    /// No workflow file was found for the reference.
    Missing,
    /// The workflow is already being expanded further up: the calls form a
    /// cycle, given from its first workflow back to that one.
    Cycle(Vec<String>),
    /// The workflow file was found but could not be read as a workflow.
    Unreadable,
    /// The workflow was read; its instances are to be inlined.
    Found,
}

/// Settle a reusable-workflow call from what its reference showed. At the
/// depth limit the call job is deferred with a finding and the lookup is not
/// consulted. Below it, a missing or unreadable workflow, or a call cycle,
/// defers the call job with a finding; a found workflow leaves `wf` as it is
/// and the result's second part asks the caller to resolve the callee and
/// inline it.
pub fn settle_call(wf: &mut WorkflowFile, call: &ReusableCall, depth: usize, lookup: Option<CallLookup>) -> (r: (
    Option<Finding>,
    bool,
))
    requires
        depth < MAX_USES_DEPTH ==> lookup is Some,
    ensures
        depth >= MAX_USES_DEPTH ==> calls_deferred(*final(wf), *old(wf), call.id@) && (r.0 matches Some(f)
            && is_too_deep(f, FindingTarget::Job { file: old(wf).path, job: call.id }, call.uses@)) && !r.1,
        depth < MAX_USES_DEPTH ==> match lookup {
            Some(CallLookup::Missing) | Some(CallLookup::Unreadable) => calls_deferred(
                *final(wf),
                *old(wf),
                call.id@,
            ) && (r.0 matches Some(f) && is_unresolved(
                f,
                FindingTarget::Job { file: old(wf).path, job: call.id },
                call.uses@,
            )) && !r.1,
            Some(CallLookup::Cycle(chain)) => calls_deferred(*final(wf), *old(wf), call.id@) && (r.0 matches Some(
                f,
            ) && is_call_cycle(f, old(wf).path, chain@)) && !r.1,
            Some(CallLookup::Found) => *final(wf) == *old(wf) && r.0 is None && r.1,
            None => false,
        },
{
    let target = FindingTarget::Job { file: wf.path.clone(), job: call.id.clone() };
    if depth >= MAX_USES_DEPTH {
        let f = uses_remote(target, call.uses.as_str());
        defer_call(wf, call.id.as_str());
        return (Some(f), false);
    }
    match lookup {
        Some(CallLookup::Missing) | Some(CallLookup::Unreadable) => {
            let f = unresolved_finding(target, call.uses.as_str());
            defer_call(wf, call.id.as_str());
            (Some(f), false)
        },
        Some(CallLookup::Cycle(chain)) => {
            let f = workflow_call_cycle(wf.path.clone(), chain.as_slice());
            defer_call(wf, call.id.as_str());
            (Some(f), false)
        },
        Some(CallLookup::Found) => (None, true),
        None => (None, false),
    }
}

/// The needs of an inlined instance: its own, renamed into the call, or the
/// call's own needs when it had none.
pub open spec fn filled_needs(own: Seq<Seq<char>>, call: ReusableCall) -> Seq<Seq<char>> {
    if own.len() == 0 {
        views(call.needs@)
    } else {
        own.map_values(|n: Seq<char>| prefixed_spec(call.id@, n))
    }
}

/// `new` is the callee instance `old` inlined into `call`: ids and needs
/// renamed under the call's job id, the call's inputs under its own, and
/// nothing else changed.
pub open spec fn inlined_instance(new: JobInstance, old: JobInstance, call: ReusableCall) -> bool {
    &&& new.instance_id@ == prefixed_spec(call.id@, old.instance_id@)
    &&& new.base_id@ == prefixed_spec(call.id@, old.base_id@)
    &&& views(new.needs@) == filled_needs(views(old.needs@), call)
    &&& new.inputs.map_view() == call.inputs.map_view().union_prefer_right(old.inputs.map_view())
    &&& new == (JobInstance { instance_id: new.instance_id, base_id: new.base_id, needs: new.needs, inputs: new.inputs, ..old })
}

/// `needs` with every `id` replaced by the names `with`.
pub open spec fn replace_needs(needs: Seq<Seq<char>>, id: Seq<char>, with: Seq<Seq<char>>) -> Seq<Seq<char>>
    decreases needs.len(),
{
    if needs.len() == 0 {
        Seq::empty()
    } else {
        replace_needs(needs.drop_last(), id, with) + if needs.last() == id {
            with
        } else {
            seq![needs.last()]
        }
    }
}

/// `new` is the caller's instance `old` with every need of the call job `id`
/// replaced by `term`.
pub open spec fn rewired(new: JobInstance, old: JobInstance, id: Seq<char>, term: Seq<Seq<char>>) -> bool {
    &&& views(new.needs@) == replace_needs(views(old.needs@), id, term)
    &&& new == (JobInstance { needs: new.needs, ..old })
}

/// `term` holds, ascending and once each, the base jobs of `nm` that no
/// instance of `nm` needs.
pub open spec fn terminal_of(term: Seq<Seq<char>>, nm: Seq<(Seq<char>, JobInstance)>) -> bool {
    &&& forall|a: int, b: int| 0 <= a < b < term.len() ==> crate::smap::lex_lt(#[trigger] term[a], #[trigger] term[b])
    &&& forall|b: Seq<char>| #[trigger] term.contains(b) <==> is_terminal_base(nm, b)
}

/// Some instance of `nm` has base job `b`, and none needs it.
pub open spec fn is_terminal_base(nm: Seq<(Seq<char>, JobInstance)>, b: Seq<char>) -> bool {
    &&& exists|i: int| 0 <= i < nm.len() && (#[trigger] nm[i]).1.base_id@ == b
    &&& !exists|i: int, j: int| 0 <= i < nm.len() && 0 <= j < nm[i].1.needs@.len() && (#[trigger] nm[i].1.needs@[j])@ == b
}

proof fn lemma_overlay_view(before: StrMap<String>, other: StrMap<String>, after: StrMap<String>)
    requires
        forall|q: Seq<char>| #[trigger] after.get_spec(q) == match other.get_spec(q) {
            Some(v) => Some(v),
            None => before.get_spec(q),
        },
    ensures
        after.map_view() == before.map_view().union_prefer_right(other.map_view()),
{
    assert forall|q: Seq<char>| #[trigger] after.map_view().contains_key(q) == before.map_view().union_prefer_right(
        other.map_view(),
    ).contains_key(q) by {
        let _ = after.get_spec(q);
        let _ = other.get_spec(q);
        let _ = before.get_spec(q);
    }
    assert forall|q: Seq<char>| after.map_view().contains_key(q) implies #[trigger] after.map_view()[q]
        == before.map_view().union_prefer_right(other.map_view())[q] by {
        let _ = after.get_spec(q);
        let _ = other.get_spec(q);
        let _ = before.get_spec(q);
    }
    assert(after.map_view() =~= before.map_view().union_prefer_right(other.map_view()));
}

/// Every name of `needs` renamed under `prefix`.
fn prefix_all(prefix: &str, needs: &Vec<String>) -> (r: Vec<String>)
    ensures
        views(r@) == views(needs@).map_values(|n: Seq<char>| prefixed_spec(prefix@, n)),
{
    let mut r: Vec<String> = Vec::new();
    let mut i: usize = 0;
    while i < needs.len()
        invariant
            i <= needs.len(),
            views(r@) == views(needs@).take(i as int).map_values(|n: Seq<char>| prefixed_spec(prefix@, n)),
        decreases needs.len() - i,
    {
        let p = prefixed(prefix, needs[i].as_str());
        let ghost before = views(r@);
        r.push(p);
        proof {
            assert(views(r@) =~= before.push(p@));
            assert(views(needs@).take(i + 1) =~= views(needs@).take(i as int).push(needs@[i as int]@));
        }
        i += 1;
    }
    proof {
        assert(views(needs@).take(needs.len() as int) =~= views(needs@));
    }
    r
}

/// The callee instance `inst` inlined into `call`.
fn inline_one(inst: JobInstance, call: &ReusableCall) -> (r: JobInstance)
    ensures
        inlined_instance(r, inst, *call),
{
    let ghost orig = inst;
    let mut inst = inst;
    let iid = prefixed(call.id.as_str(), inst.instance_id.as_str());
    let bid = prefixed(call.id.as_str(), inst.base_id.as_str());
    let needs = if inst.needs.len() == 0 {
        copy_strings(&call.needs)
    } else {
        prefix_all(call.id.as_str(), &inst.needs)
    };
    let mut inputs = call.inputs.duplicate();
    let ghost base_inputs = inputs;
    inputs.overlay(&inst.inputs);
    proof {
        lemma_overlay_view(base_inputs, inst.inputs, inputs);
        assert(base_inputs.map_view() =~= call.inputs.map_view());
    }
    inst.instance_id = iid;
    inst.base_id = bid;
    inst.needs = needs;
    inst.inputs = inputs;
    inst
}

/// `needs` with every `id` replaced by `with`.
fn rewrite_needs(needs: &Vec<String>, id: &str, with: &Vec<String>) -> (r: Vec<String>)
    ensures
        views(r@) == replace_needs(views(needs@), id@, views(with@)),
{
    let mut r: Vec<String> = Vec::new();
    let mut i: usize = 0;
    while i < needs.len()
        invariant
            i <= needs.len(),
            views(r@) == replace_needs(views(needs@).take(i as int), id@, views(with@)),
        decreases needs.len() - i,
    {
        proof {
            assert(views(needs@).take(i + 1).drop_last() =~= views(needs@).take(i as int));
        }
        if str_eq(needs[i].as_str(), id) {
            let mut k: usize = 0;
            let ghost base = views(r@);
            while k < with.len()
                invariant
                    k <= with.len(),
                    views(r@) == base + views(with@).take(k as int),
                decreases with.len() - k,
            {
                let ghost before = views(r@);
                r.push(with[k].clone());
                proof {
                    assert(views(r@) =~= before.push(with@[k as int]@));
                    assert(views(with@).take(k + 1) =~= views(with@).take(k as int).push(with@[k as int]@));
                }
                k += 1;
            }
            proof {
                assert(views(with@).take(with.len() as int) =~= views(with@));
            }
        } else {
            let ghost before = views(r@);
            r.push(needs[i].clone());
            proof {
                assert(views(r@) =~= before + seq![needs@[i as int]@]);
            }
        }
        i += 1;
    }
    proof {
        assert(views(needs@).take(needs.len() as int) =~= views(needs@));
    }
    r
}

/// The distinct entries of the ascending `v`, ascending.
fn dedup_sorted(v: Vec<String>) -> (r: Vec<String>)
    requires
        crate::graph::sorted_names(views(v@)),
    ensures
        forall|a: int, b: int| 0 <= a < b < r@.len() ==> crate::smap::lex_lt(#[trigger] views(r@)[a], #[trigger] views(r@)[b]),
        forall|x: Seq<char>| #[trigger] views(r@).contains(x) <==> views(v@).contains(x),
{
    let mut r: Vec<String> = Vec::new();
    let mut i: usize = 0;
    while i < v.len()
        invariant
            i <= v.len(),
            crate::graph::sorted_names(views(v@)),
            forall|a: int, b: int| 0 <= a < b < r@.len() ==> crate::smap::lex_lt(#[trigger] views(r@)[a], #[trigger] views(r@)[b]),
            forall|x: Seq<char>| #[trigger] views(r@).contains(x) <==> views(v@).take(i as int).contains(x),
            i > 0 ==> r@.len() > 0 && views(r@).last() == views(v@)[i - 1],
            r@.len() <= i,
        decreases v.len() - i,
    {
        let ghost before = views(r@);
        let ghost vt = views(v@).take(i as int);
        let ghost vt1 = views(v@).take(i + 1);
        proof {
            assert(vt1 =~= vt.push(views(v@)[i as int]));
            assert(forall|x: Seq<char>| #[trigger] before.contains(x) <==> vt.contains(x));
        }
        if r.len() == 0 || !str_eq(r[r.len() - 1].as_str(), v[i].as_str()) {
            r.push(v[i].clone());
            proof {
                assert(views(r@) =~= before.push(v@[i as int]@));
                if i > 0 {
                    let p = views(v@)[i - 1];
                    let c = views(v@)[i as int];
                    assert(!crate::smap::lex_lt(c, p));
                    assert(before.last() == p);
                    assert(p != c);
                    crate::smap::lemma_lex_total(p, c);
                    assert(crate::smap::lex_lt(before.last(), c));
                }
                assert forall|a: int, b: int| 0 <= a < b < r@.len() implies crate::smap::lex_lt(
                    #[trigger] views(r@)[a],
                    #[trigger] views(r@)[b],
                ) by {
                    if b == r@.len() - 1 {
                        assert(views(r@)[b] == views(v@)[i as int]);
                        if a < b - 1 {
                            assert(views(r@)[a] == before[a]);
                            assert(before.last() == before[b - 1]);
                            crate::smap::lemma_lex_transitive(views(r@)[a], before.last(), views(r@)[b]);
                        }
                    } else {
                        assert(views(r@)[a] == before[a] && views(r@)[b] == before[b]);
                    }
                }
                assert forall|x: Seq<char>| #[trigger] views(r@).contains(x) <==> vt1.contains(x) by {
                    if views(r@).contains(x) && x != views(v@)[i as int] {
                        let w = choose|w: int| 0 <= w < views(r@).len() && views(r@)[w] == x;
                        assert(before[w] == x);
                        assert(before.contains(x));
                        let u = choose|u: int| 0 <= u < vt.len() && vt[u] == x;
                        assert(vt1[u] == x);
                    }
                    if vt1.contains(x) && x != views(v@)[i as int] {
                        let u = choose|u: int| 0 <= u < vt1.len() && vt1[u] == x;
                        assert(vt[u] == x);
                        assert(vt.contains(x));
                        assert(before.contains(x));
                        let w = choose|w: int| 0 <= w < before.len() && before[w] == x;
                        assert(views(r@)[w] == x);
                    }
                    if x == views(v@)[i as int] {
                        assert(views(r@)[before.len() as int] == x);
                        assert(vt1[i as int] == x);
                    }
                }
            }
        } else {
            proof {
                assert(views(r@).last() == views(v@)[i as int]);
                assert forall|x: Seq<char>| #[trigger] views(r@).contains(x) <==> vt1.contains(x) by {
                    if vt1.contains(x) && x != views(v@)[i as int] {
                        let u = choose|u: int| 0 <= u < vt1.len() && vt1[u] == x;
                        assert(vt[u] == x);
                        assert(vt.contains(x));
                    }
                    if x == views(v@)[i as int] {
                        assert(views(r@)[views(r@).len() - 1] == x);
                        assert(vt1[i as int] == x);
                    }
                    if views(r@).contains(x) {
                        assert(vt.contains(x));
                        let u = choose|u: int| 0 <= u < vt.len() && vt[u] == x;
                        assert(vt1[u] == x);
                    }
                }
            }
        }
        i += 1;
    }
    proof {
        assert(views(v@).take(v.len() as int) =~= views(v@));
    }
    r
}

/// Some instance of `nm` before `m` needs `x` (all of the instance's needs
/// when before `m`, its first `k` when at `m`).
pub open spec fn needed_before(nm: Seq<(Seq<char>, JobInstance)>, x: Seq<char>, m: int, k: int) -> bool {
    ||| exists|i: int, j: int| 0 <= i < m && 0 <= j < nm[i].1.needs@.len() && (#[trigger] nm[i].1.needs@[j])@ == x
    ||| exists|j: int| 0 <= j < k && (#[trigger] nm[m].1.needs@[j])@ == x
}

/// The base jobs of `nm` that no instance of `nm` needs, ascending and once
/// each.
fn terminal_bases(nm: &StrMap<JobInstance>) -> (r: Vec<String>)
    ensures
        terminal_of(views(r@), nm@),
{
    let n = nm.len();
    let mut referenced: Vec<String> = Vec::new();
    let mut i: usize = 0;
    while i < n
        invariant
            i <= n == nm@.len(),
            forall|x: Seq<char>| #[trigger] views(referenced@).contains(x) <==> needed_before(nm@, x, i as int, 0),
        decreases n - i,
    {
        let needs = &nm.value_at(i).needs;
        let mut j: usize = 0;
        while j < needs.len()
            invariant
                i < n == nm@.len(),
                *needs == nm@[i as int].1.needs,
                j <= needs.len(),
                forall|x: Seq<char>| #[trigger] views(referenced@).contains(x) <==> needed_before(nm@, x, i as int, j as int),
            decreases needs.len() - j,
        {
            let ghost before = views(referenced@);
            referenced.push(needs[j].clone());
            proof {
                assert(views(referenced@) =~= before.push(needs@[j as int]@));
                assert forall|x: Seq<char>| #[trigger] views(referenced@).contains(x) <==> needed_before(nm@, x, i as int, j + 1) by {
                    if x == needs@[j as int]@ {
                        assert(views(referenced@)[before.len() as int] == x);
                        assert(nm@[i as int].1.needs@[j as int]@ == x);
                    } else {
                        if views(referenced@).contains(x) {
                            let w = choose|w: int| 0 <= w < views(referenced@).len() && views(referenced@)[w] == x;
                            assert(before[w] == x);
                            assert(before.contains(x));
                        }
                        if before.contains(x) {
                            let w = choose|w: int| 0 <= w < before.len() && before[w] == x;
                            assert(views(referenced@)[w] == x);
                        }
                        if needed_before(nm@, x, i as int, j + 1) {
                            if exists|q: int| 0 <= q < j + 1 && (#[trigger] nm@[i as int].1.needs@[q])@ == x {
                                let q = choose|q: int| 0 <= q < j + 1 && (#[trigger] nm@[i as int].1.needs@[q])@ == x;
                                assert(q < j);
                            }
                        }
                    }
                }
            }
            j += 1;
        }
        proof {
            assert forall|x: Seq<char>| #[trigger] views(referenced@).contains(x) <==> needed_before(nm@, x, i + 1, 0) by {
                if needed_before(nm@, x, i as int, needs.len() as int) {
                    if exists|q: int| 0 <= q < needs.len() && (#[trigger] nm@[i as int].1.needs@[q])@ == x {
                        let q = choose|q: int| 0 <= q < needs.len() && (#[trigger] nm@[i as int].1.needs@[q])@ == x;
                        assert(nm@[i as int].1.needs@[q]@ == x);
                    }
                }
                if needed_before(nm@, x, i + 1, 0) {
                    let (a, b) = choose|a: int, b: int| 0 <= a < i + 1 && 0 <= b < nm@[a].1.needs@.len() && (#[trigger] nm@[a].1.needs@[b])@ == x;
                    if a == i {
                        assert(nm@[i as int].1.needs@[b]@ == x);
                    }
                }
            }
        }
        i += 1;
    }
    let mut cand: Vec<String> = Vec::new();
    let mut i: usize = 0;
    while i < n
        invariant
            i <= n == nm@.len(),
            forall|x: Seq<char>| #[trigger] views(referenced@).contains(x) <==> needed_before(nm@, x, n as int, 0),
            forall|x: Seq<char>| #[trigger] views(cand@).contains(x) <==> ((exists|a: int| 0 <= a < i && (#[trigger] nm@[a]).1.base_id@ == x)
                && !needed_before(nm@, x, n as int, 0)),
        decreases n - i,
    {
        let base = &nm.value_at(i).base_id;
        if !crate::matrix::contains_name(&referenced, base.as_str()) {
            let ghost before = views(cand@);
            cand.push(base.clone());
            proof {
                assert(views(cand@) =~= before.push(base@));
                assert forall|x: Seq<char>| #[trigger] views(cand@).contains(x) <==> ((exists|a: int| 0 <= a < i + 1 && (#[trigger] nm@[a]).1.base_id@ == x)
                    && !needed_before(nm@, x, n as int, 0)) by {
                    if x == base@ {
                        assert(views(cand@)[before.len() as int] == x);
                        assert(nm@[i as int].1.base_id@ == x);
                    } else {
                        if views(cand@).contains(x) {
                            let w = choose|w: int| 0 <= w < views(cand@).len() && views(cand@)[w] == x;
                            assert(before[w] == x);
                            assert(before.contains(x));
                        }
                        if before.contains(x) {
                            let w = choose|w: int| 0 <= w < before.len() && before[w] == x;
                            assert(views(cand@)[w] == x);
                        }
                        if exists|a: int| 0 <= a < i + 1 && (#[trigger] nm@[a]).1.base_id@ == x {
                            let a = choose|a: int| 0 <= a < i + 1 && (#[trigger] nm@[a]).1.base_id@ == x;
                            assert(a < i);
                        }
                    }
                }
            }
        } else {
            proof {
                assert forall|x: Seq<char>| #[trigger] views(cand@).contains(x) <==> ((exists|a: int| 0 <= a < i + 1 && (#[trigger] nm@[a]).1.base_id@ == x)
                    && !needed_before(nm@, x, n as int, 0)) by {
                    if exists|a: int| 0 <= a < i + 1 && (#[trigger] nm@[a]).1.base_id@ == x {
                        let a = choose|a: int| 0 <= a < i + 1 && (#[trigger] nm@[a]).1.base_id@ == x;
                        if a == i {
                            assert(views(referenced@).contains(base@));
                        }
                    }
                }
            }
        }
        i += 1;
    }
    let sorted = crate::graph::sort_names(cand);
    let r = dedup_sorted(sorted);
    proof {
        assert forall|b: Seq<char>| #[trigger] views(r@).contains(b) <==> is_terminal_base(nm@, b) by {
            crate::graph::lemma_multiset_contains(views(sorted@), views(cand@), b);
            if needed_before(nm@, b, n as int, 0) {
                let (a, j) = choose|a: int, j: int| 0 <= a < n && 0 <= j < nm@[a].1.needs@.len() && (#[trigger] nm@[a].1.needs@[j])@ == b;
            }
        }
    }
    r
}

/// The position of the last of the first `m` callee entries whose instance,
/// renamed into call `id`, has instance id `q`.
pub open spec fn last_renamed(cs: Seq<(Seq<char>, JobInstance)>, id: Seq<char>, q: Seq<char>, m: int) -> Option<int>
    decreases m,
{
    if m <= 0 {
        None
    } else if prefixed_spec(id, cs[m - 1].1.instance_id@) == q {
        Some(m - 1)
    } else {
        last_renamed(cs, id, q, m - 1)
    }
}

/// `nm` is the callee's instances `cs` inlined into `call`, keyed by their
/// new instance ids (a later instance replacing an earlier one of the same
/// new id).
pub open spec fn nested_ok(nm: Seq<(Seq<char>, JobInstance)>, cs: Seq<(Seq<char>, JobInstance)>, call: ReusableCall) -> bool {
    &&& crate::smap::strictly_sorted(nm)
    &&& forall|q: Seq<char>| #[trigger] crate::smap::lookup(nm, q) is Some <==> last_renamed(cs, call.id@, q, cs.len() as int) is Some
    &&& forall|q: Seq<char>| #[trigger] crate::smap::lookup(nm, q) is Some ==> inlined_instance(
        crate::smap::lookup(nm, q)->0,
        cs[last_renamed(cs, call.id@, q, cs.len() as int)->0].1,
        call,
    )
}

/// The caller's instances `fin` after inlining `nm` for the call job `id`:
/// every inlined instance; otherwise the old instances that are not the
/// call's own, with the call's id in their needs replaced by `term`.
pub open spec fn inlined_into(
    fin: StrMap<JobInstance>,
    old: StrMap<JobInstance>,
    nm: Seq<(Seq<char>, JobInstance)>,
    term: Seq<Seq<char>>,
    id: Seq<char>,
) -> bool {
    forall|q: Seq<char>| #[trigger] fin.get_spec(q) == fin.get_spec(q) && match crate::smap::lookup(nm, q) {
        Some(v) => fin.get_spec(q) == Some(v),
        None => match old.get_spec(q) {
            Some(o) => if o.base_id@ != id {
                fin.get_spec(q) matches Some(v) && rewired(v, o, id, term)
            } else {
                fin.get_spec(q) is None
            },
            None => fin.get_spec(q) is None,
        },
    }
}

/// After inlining, no instance of the caller belongs to the call job any
/// more: the call job's own instances are gone, inlined instances belong to
/// `<call>><base>` jobs and the others keep their base jobs.
pub proof fn lemma_call_job_gone(
    fin: StrMap<JobInstance>,
    old: StrMap<JobInstance>,
    nm: Seq<(Seq<char>, JobInstance)>,
    term: Seq<Seq<char>>,
    cs: Seq<(Seq<char>, JobInstance)>,
    call: ReusableCall,
    q: Seq<char>,
)
    requires
        nested_ok(nm, cs, call),
        inlined_into(fin, old, nm, term, call.id@),
        fin.get_spec(q) is Some,
    ensures
        fin.get_spec(q)->0.base_id@ != call.id@,
{
    assert(fin.get_spec(q) == fin.get_spec(q));
    match crate::smap::lookup(nm, q) {
        Some(v) => {
            let o = cs[last_renamed(cs, call.id@, q, cs.len() as int)->0].1;
            assert(inlined_instance(v, o, call));
            assert(v.base_id@.len() > call.id@.len());
        },
        None => {},
    }
}

proof fn lemma_concat_contains(a: Seq<Seq<char>>, b: Seq<Seq<char>>, x: Seq<char>)
    ensures
        (a + b).contains(x) <==> a.contains(x) || b.contains(x),
{
    if (a + b).contains(x) {
        let i = choose|i: int| 0 <= i < (a + b).len() && (a + b)[i] == x;
        if i < a.len() {
            assert(a[i] == x);
        } else {
            assert(b[i - a.len()] == x);
        }
    }
    if a.contains(x) {
        let i = choose|i: int| 0 <= i < a.len() && a[i] == x;
        assert((a + b)[i] == x);
    }
    if b.contains(x) {
        let i = choose|i: int| 0 <= i < b.len() && b[i] == x;
        assert((a + b)[a.len() + i] == x);
    }
}

/// Law of rewiring: after every need of `id` is replaced by `with`, a job is
/// needed exactly when it was needed before and is not `id`, or when `id` was
/// needed and it is one of `with`.
pub proof fn lemma_replace_needs(needs: Seq<Seq<char>>, id: Seq<char>, with: Seq<Seq<char>>, x: Seq<char>)
    ensures
        replace_needs(needs, id, with).contains(x) <==> (needs.contains(x) && x != id) || (needs.contains(id)
            && with.contains(x)),
    decreases needs.len(),
{
    if needs.len() > 0 {
        let init = needs.drop_last();
        let last = needs.last();
        lemma_replace_needs(init, id, with, x);
        let tail = if last == id { with } else { seq![last] };
        lemma_concat_contains(replace_needs(init, id, with), tail, x);
        assert(needs =~= init.push(last));
        assert(needs.contains(x) <==> init.contains(x) || last == x) by {
            if needs.contains(x) {
                let i = choose|i: int| 0 <= i < needs.len() && needs[i] == x;
                if i < init.len() {
                    assert(init[i] == x);
                }
            }
            if init.contains(x) {
                let i = choose|i: int| 0 <= i < init.len() && init[i] == x;
                assert(needs[i] == x);
            }
            assert(needs[needs.len() - 1] == last);
        }
        assert(needs.contains(id) <==> init.contains(id) || last == id) by {
            if needs.contains(id) {
                let i = choose|i: int| 0 <= i < needs.len() && needs[i] == id;
                if i < init.len() {
                    assert(init[i] == id);
                }
            }
            if init.contains(id) {
                let i = choose|i: int| 0 <= i < init.len() && init[i] == id;
                assert(needs[i] == id);
            }
            assert(needs[needs.len() - 1] == last);
        }
        if last != id {
            assert(seq![last].contains(x) <==> last == x) by {
                if last == x {
                    assert(seq![last][0] == x);
                }
            }
        }
    }
}

/// Law of the caller's other instances after inlining: each is one the
/// caller had, and it needs a job exactly when that job was needed before and
/// is not the call job, or when the call job was needed and the job is one
/// of the callee's terminal jobs `term`.
pub proof fn lemma_callers_rewired(
    fin: StrMap<JobInstance>,
    old: StrMap<JobInstance>,
    nm: Seq<(Seq<char>, JobInstance)>,
    term: Seq<Seq<char>>,
    call: ReusableCall,
    q: Seq<char>,
    x: Seq<char>,
)
    requires
        inlined_into(fin, old, nm, term, call.id@),
        crate::smap::lookup(nm, q) is None,
        fin.get_spec(q) is Some,
    ensures
        old.get_spec(q) is Some,
        old.get_spec(q)->0.base_id@ != call.id@,
        views(fin.get_spec(q)->0.needs@).contains(x) <==> (views(old.get_spec(q)->0.needs@).contains(x) && x
            != call.id@) || (views(old.get_spec(q)->0.needs@).contains(call.id@) && term.contains(x)),
{
    assert(fin.get_spec(q) == fin.get_spec(q));
    let o = old.get_spec(q)->0;
    let v = fin.get_spec(q)->0;
    assert(rewired(v, o, call.id@, term));
    lemma_replace_needs(views(o.needs@), call.id@, term, x);
}

/// Law of an inlined instance: it is renamed under the call's job id, takes
/// the call's inputs under its own, and an instance of the callee that needs
/// nothing inherits exactly the call job's needs, so every job the call job
/// needed stays upstream of it; one with needs of its own keeps them, each
/// renamed under the call's job id.
pub proof fn lemma_inlined_needs(
    fin: StrMap<JobInstance>,
    old: StrMap<JobInstance>,
    nm: Seq<(Seq<char>, JobInstance)>,
    term: Seq<Seq<char>>,
    cs: Seq<(Seq<char>, JobInstance)>,
    call: ReusableCall,
    q: Seq<char>,
)
    requires
        nested_ok(nm, cs, call),
        inlined_into(fin, old, nm, term, call.id@),
        crate::smap::lookup(nm, q) is Some,
    ensures
        ({
            let v = fin.get_spec(q)->0;
            let o = cs[last_renamed(cs, call.id@, q, cs.len() as int)->0].1;
            &&& fin.get_spec(q) is Some
            &&& v.instance_id@ == prefixed_spec(call.id@, o.instance_id@)
            &&& v.base_id@ == prefixed_spec(call.id@, o.base_id@)
            &&& v.inputs.map_view() == call.inputs.map_view().union_prefer_right(o.inputs.map_view())
            &&& o.needs@.len() == 0 ==> v.needs@.len() == call.needs@.len() && forall|i: int|
                0 <= i < call.needs@.len() ==> (#[trigger] v.needs@[i])@ == call.needs@[i]@
            &&& o.needs@.len() > 0 ==> v.needs@.len() == o.needs@.len() && forall|i: int|
                0 <= i < o.needs@.len() ==> (#[trigger] v.needs@[i])@ == prefixed_spec(call.id@, o.needs@[i]@)
        }),
{
    assert(fin.get_spec(q) == fin.get_spec(q));
    let v = fin.get_spec(q)->0;
    let o = cs[last_renamed(cs, call.id@, q, cs.len() as int)->0].1;
    assert(inlined_instance(v, o, call));
    assert(views(v.needs@) == filled_needs(views(o.needs@), call));
    assert(views(v.needs@).len() == v.needs@.len());
    if o.needs@.len() == 0 {
        assert forall|i: int| 0 <= i < call.needs@.len() implies (#[trigger] v.needs@[i])@ == call.needs@[i]@ by {
            assert(views(v.needs@)[i] == views(call.needs@)[i]);
        }
    } else {
        assert forall|i: int| 0 <= i < o.needs@.len() implies (#[trigger] v.needs@[i])@ == prefixed_spec(
            call.id@, o.needs@[i]@) by {
            assert(views(v.needs@)[i] == views(o.needs@).map_values(|n: Seq<char>| prefixed_spec(call.id@, n))[i]);
        }
    }
}

/// Inline a called reusable workflow's instances into the caller: the call
/// job's own instances go, the callee's come in renamed under the call's job
/// id (inheriting the call's needs and inputs), and callers of the call job
/// now need the callee's terminal jobs instead.
#[verifier::spinoff_prover]
pub fn inline_callee(caller: &mut WorkflowFile, call: &ReusableCall, callee_instances: StrMap<JobInstance>)
    ensures
        *final(caller) == (WorkflowFile { instances: final(caller).instances, ..*old(caller) }),
        exists|nm: Seq<(Seq<char>, JobInstance)>, term: Seq<Seq<char>>|
            nested_ok(nm, callee_instances@, *call) && terminal_of(term, nm) && #[trigger] inlined_into(
                final(caller).instances,
                old(caller).instances,
                nm,
                term,
                call.id@,
            ),
{
    let ghost cs = callee_instances@;
    let mut callee = callee_instances;
    let mut rest = callee.take_entries();
    let ghost ents = rest@;
    let n = rest.len();
    let mut nested: StrMap<JobInstance> = StrMap::new();
    let mut t: usize = 0;
    while t < n
        invariant
            t <= n == ents.len(),
            crate::smap::entry_views(ents) == cs,
            rest@ == ents.skip(t as int),
            forall|q: Seq<char>| (#[trigger] nested.get_spec(q)) is Some <==> last_renamed(cs, call.id@, q, t as int) is Some,
            forall|q: Seq<char>| (#[trigger] nested.get_spec(q)) is Some ==> inlined_instance(
                nested.get_spec(q)->0,
                cs[last_renamed(cs, call.id@, q, t as int)->0].1,
                *call,
            ),
        decreases n - t,
    {
        let (_, inst) = rest.remove(0);
        proof {
            assert(ents.skip(t + 1) =~= ents.skip(t as int).drop_first());
            assert(inst == cs[t as int].1);
        }
        let ni = inline_one(inst, call);
        let key = ni.instance_id.clone();
        let ghost before = nested;
        nested.insert(key, ni);
        proof {
            assert forall|q: Seq<char>| (#[trigger] nested.get_spec(q)) is Some <==> last_renamed(cs, call.id@, q, t + 1) is Some by {
                let _ = before.get_spec(q);
            }
            assert forall|q: Seq<char>| (#[trigger] nested.get_spec(q)) is Some implies inlined_instance(
                nested.get_spec(q)->0,
                cs[last_renamed(cs, call.id@, q, t + 1)->0].1,
                *call,
            ) by {
                let _ = before.get_spec(q);
            }
        }
        t += 1;
    }
    let ghost nm = nested@;
    let term = terminal_bases(&nested);
    let nested_count = nested.len();
    proof {
        assert(nested_ok(nm, cs, *call)) by {
            assert forall|q: Seq<char>| #[trigger] crate::smap::lookup(nm, q) is Some <==> last_renamed(cs, call.id@, q, cs.len() as int) is Some by {
                let _ = nested.get_spec(q);
            }
            assert forall|q: Seq<char>| #[trigger] crate::smap::lookup(nm, q) is Some implies inlined_instance(
                crate::smap::lookup(nm, q)->0,
                cs[last_renamed(cs, call.id@, q, cs.len() as int)->0].1,
                *call,
            ) by {
                let _ = nested.get_spec(q);
            }
        }
    }
    // The caller's instances, without the call job's own, rewired.
    let ghost old_map = caller.instances;
    let ghost olds = caller.instances@;
    let mut rest = caller.instances.take_entries();
    let ghost oents = rest@;
    let m = rest.len();
    let mut kept: Vec<(String, JobInstance)> = Vec::new();
    let ghost mut idx: Seq<int> = Seq::empty();
    let mut i: usize = 0;
    while i < m
        invariant
            i <= m == oents.len(),
            crate::smap::entry_views(oents) == olds,
            crate::smap::strictly_sorted(olds),
            old_map@ == olds,
            rest@ == oents.skip(i as int),
            idx.len() == kept@.len(),
            forall|a: int| 0 <= a < idx.len() ==> 0 <= #[trigger] idx[a] < i,
            forall|a: int, b: int| 0 <= a < b < idx.len() ==> #[trigger] idx[a] < #[trigger] idx[b],
            forall|a: int| 0 <= a < idx.len() ==> {
                let k = #[trigger] kept@[a];
                let o = oents[idx[a]];
                &&& k.0 == o.0
                &&& o.1.base_id@ != call.id@
                &&& rewired(k.1, o.1, call.id@, views(term@))
            },
            forall|j: int| 0 <= j < i && (#[trigger] oents[j]).1.base_id@ != call.id@ ==> exists|a: int| 0 <= a < idx.len() && idx[a] == j,
        decreases m - i,
    {
        let (k, mut inst) = rest.remove(0);
        proof {
            assert(oents.skip(i + 1) =~= oents.skip(i as int).drop_first());
            assert(inst == oents[i as int].1 && k == oents[i as int].0);
        }
        if !str_eq(inst.base_id.as_str(), call.id.as_str()) {
            let ghost o = inst;
            inst.needs = rewrite_needs(&inst.needs, call.id.as_str(), &term);
            let ghost before_kept = kept@;
            kept.push((k, inst));
            proof {
                let idx_old = idx;
                idx = idx.push(i as int);
                assert forall|a: int| 0 <= a < idx.len() implies {
                    let k = #[trigger] kept@[a];
                    let o = oents[idx[a]];
                    &&& k.0 == o.0
                    &&& o.1.base_id@ != call.id@
                    &&& rewired(k.1, o.1, call.id@, views(term@))
                } by {
                    if a < before_kept.len() {
                        assert(kept@[a] == before_kept[a]);
                        assert(idx[a] == idx_old[a]);
                    } else {
                        assert(kept@[a] == (k, inst));
                        assert(idx[a] == i);
                        assert(oents[i as int].1 == o);
                        assert(rewired(inst, o, call.id@, views(term@)));
                    }
                }
                assert forall|j: int| 0 <= j < i + 1 && (#[trigger] oents[j]).1.base_id@ != call.id@ implies exists|a: int|
                    0 <= a < idx.len() && idx[a] == j by {
                    if j == i {
                        assert(idx[idx.len() - 1] == j);
                    } else {
                        let a = choose|a: int| 0 <= a < idx_old.len() && idx_old[a] == j;
                        assert(idx[a] == j);
                    }
                }
            }
        }
        i += 1;
    }
    proof {
        assert forall|a: int, b: int| 0 <= a < b < kept@.len() implies crate::smap::lex_lt(
            #[trigger] crate::smap::entry_views(kept@)[a].0,
            #[trigger] crate::smap::entry_views(kept@)[b].0,
        ) by {
            assert(idx[a] < idx[b]);
            assert(olds[idx[a]].0 == oents[idx[a]].0@);
            assert(olds[idx[b]].0 == oents[idx[b]].0@);
        }
    }
    let mut map = StrMap::from_entries(kept);
    let ghost kv = map@;
    proof {
        assert forall|q: Seq<char>| #[trigger] map.get_spec(q) == map.get_spec(q) && match old_map.get_spec(q) {
            Some(o) => if o.base_id@ != call.id@ {
                map.get_spec(q) matches Some(v) && rewired(v, o, call.id@, views(term@))
            } else {
                map.get_spec(q) is None
            },
            None => map.get_spec(q) is None,
        } by {
            crate::smap::lemma_lookup_some(olds, q);
            crate::smap::lemma_lookup_some(kv, q);
            if let Some(o) = old_map.get_spec(q) {
                let j = choose|j: int| 0 <= j < olds.len() && olds[j].0 == q && olds[j].1 == o;
                assert(oents[j].1 == o);
                if o.base_id@ != call.id@ {
                    let a = choose|a: int| 0 <= a < idx.len() && idx[a] == j;
                    assert(kv[a].0 == q);
                    crate::smap::lemma_lookup_index(kv, q, a);
                } else {
                    if map.get_spec(q) is Some {
                        let a = choose|a: int| 0 <= a < kv.len() && kv[a].0 == q && kv[a].1 == map.get_spec(q)->0;
                        assert(olds[idx[a]].0 == q);
                        crate::smap::lemma_lookup_index(olds, q, idx[a]);
                    }
                }
            } else {
                if map.get_spec(q) is Some {
                    let a = choose|a: int| 0 <= a < kv.len() && kv[a].0 == q && kv[a].1 == map.get_spec(q)->0;
                    assert(olds[idx[a]].0 == q);
                }
            }
        }
    }
    // Add the inlined instances, replacing same-id ones.
    let ghost map0 = map;
    let mut nrest = nested.take_entries();
    let ghost nents = nrest@;
    let p = nrest.len();
    let mut u: usize = 0;
    while u < p
        invariant
            u <= p == nents.len(),
            crate::smap::entry_views(nents) == nm,
            crate::smap::strictly_sorted(nm),
            nrest@ == nents.skip(u as int),
            forall|q: Seq<char>| #[trigger] map.get_spec(q) == if exists|s: int| 0 <= s < u && nm[s].0 == q {
                crate::smap::lookup(nm, q)
            } else {
                map0.get_spec(q)
            },
        decreases p - u,
    {
        let (k, v) = nrest.remove(0);
        proof {
            assert(nents.skip(u + 1) =~= nents.skip(u as int).drop_first());
            assert(nm[u as int] == (k@, v));
            crate::smap::lemma_lookup_index(nm, k@, u as int);
        }
        let ghost before = map;
        map.insert(k, v);
        proof {
            assert forall|q: Seq<char>| #[trigger] map.get_spec(q) == if exists|s: int| 0 <= s < u + 1 && nm[s].0 == q {
                crate::smap::lookup(nm, q)
            } else {
                map0.get_spec(q)
            } by {
                let _ = before.get_spec(q);
                if q != nm[u as int].0 {
                    if exists|s: int| 0 <= s < u + 1 && nm[s].0 == q {
                        let s = choose|s: int| 0 <= s < u + 1 && nm[s].0 == q;
                        assert(s < u);
                    }
                } else {
                    assert(0 <= u < u + 1 && nm[u as int].0 == q);
                }
            }
        }
        u += 1;
    }
    caller.instances = map;
    proof {
        assert(inlined_into(caller.instances, old_map, nm, views(term@), call.id@)) by {
            assert forall|q: Seq<char>| #[trigger] caller.instances.get_spec(q) == caller.instances.get_spec(q) && match crate::smap::lookup(nm, q) {
                Some(v) => caller.instances.get_spec(q) == Some(v),
                None => match old_map.get_spec(q) {
                    Some(o) => if o.base_id@ != call.id@ {
                        caller.instances.get_spec(q) matches Some(v) && rewired(v, o, call.id@, views(term@))
                    } else {
                        caller.instances.get_spec(q) is None
                    },
                    None => caller.instances.get_spec(q) is None,
                },
            } by {
                crate::smap::lemma_lookup_some(nm, q);
                let _ = map0.get_spec(q);
                if crate::smap::lookup(nm, q) is Some {
                    let s = choose|s: int| 0 <= s < nm.len() && nm[s].0 == q && nm[s].1 == crate::smap::lookup(nm, q)->0;
                    assert(0 <= s < p && nm[s].0 == q);
                }
            }
        }
    }
}

} // verus!
