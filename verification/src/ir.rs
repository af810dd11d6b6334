//! The semantic model of a workflow: jobs, their concrete run instances and
//! their steps, each tagged with how far this library understands it.

use vstd::prelude::*;

use crate::matrix::{MatrixNote, expand_workflow, expanded};
use crate::parse::{RawJob, RawStep, RawWorkflow};
use crate::smap::{StrMap, lookup, lemma_lookup_insert};
use crate::text::{has_prefix, join, views, owned, cat3, starts_with, join_strings, lemma_views_push};
use crate::triggers::{TriggerSet, ostr, triggers_spec};
use crate::yaml::{Yaml, map_get, mapping_get, scalar_text, scalar_to_string, any_text, to_text};

verus! {

/// How confidently a job or step is understood: `Deferred` constructs are
/// recognized but not evaluated; `Unknown` is for constructs not recognized
/// at all.
#[derive(Debug, Clone, Copy, PartialEq, Eq, Structural)]
pub enum SupportTier {
    Supported,
    Deferred,
    Unknown,
}

/// `concurrency:` settings.
#[derive(Debug, Clone)]
pub struct Concurrency {
    pub group: String,
    pub cancel_in_progress: Option<bool>,
}

/// One `services:` container.
#[derive(Debug, Clone)]
pub struct Service {
    pub image: Option<String>,
    pub ports: Vec<String>,
    pub env: StrMap<String>,
    pub options: Option<String>,
}

/// `permissions:`: one of the two shorthands, or scopes mapped to levels.
#[derive(Debug, Clone)]
pub enum Permissions {
    ReadAll,
    WriteAll,
    Scoped(StrMap<String>),
}

/// A deployment `environment:`.
#[derive(Debug, Clone)]
pub struct Environment {
    pub name: String,
    pub url: Option<String>,
}

/// `defaults.run` settings.
#[derive(Debug, Clone)]
pub struct DefaultsRun {
    pub shell: Option<String>,
    pub working_directory: Option<String>,
}

/// A logical (YAML) job.
#[derive(Debug)]
pub struct Job {
    pub id: String,
    pub uses: Option<String>,
    pub with_inputs: StrMap<String>,
    pub runs_on: Option<String>,
    pub needs: Vec<String>,
    pub condition: Option<String>,
    pub outputs: StrMap<String>,
    pub env: StrMap<String>,
    pub concurrency: Option<Concurrency>,
    pub services: StrMap<Service>,
    pub permissions: Option<Permissions>,
    pub environment: Option<Environment>,
    pub defaults_run: Option<DefaultsRun>,
    pub steps: Vec<Step>,
    /// The raw `strategy:` value, expanded into instances after
    /// normalization.
    pub strategy: Option<Yaml>,
    /// The text the YAML writer gives `strategy`, which expression scanning
    /// reads.
    pub strategy_text: Option<String>,
    /// Set when the job's `strategy.matrix` needs a finding (empty, capped or
    /// unsupported).
    pub matrix_note: Option<MatrixNote>,
    pub support: SupportTier,
    pub deferred_reasons: Vec<String>,
}

/// One concrete run of a [`Job`]: its only instance, or one matrix
/// combination.
#[derive(Debug)]
pub struct JobInstance {
    pub instance_id: String,
    pub base_id: String,
    pub matrix: StrMap<String>,
    /// Reusable-workflow inputs available as `inputs.*` in this job.
    pub inputs: StrMap<String>,
    pub runs_on: Option<String>,
    pub needs: Vec<String>,
    pub condition: Option<String>,
    pub outputs: StrMap<String>,
    pub env: StrMap<String>,
    pub strategy: Option<Yaml>,
    /// The text the YAML writer gives `strategy`.
    pub strategy_text: Option<String>,
    pub concurrency: Option<Concurrency>,
    pub services: StrMap<Service>,
    pub permissions: Option<Permissions>,
    pub environment: Option<Environment>,
    pub defaults_run: Option<DefaultsRun>,
    pub steps: Vec<Step>,
    pub support: SupportTier,
    pub deferred_reasons: Vec<String>,
}

/// One step of a job.
#[derive(Debug)]
pub struct Step {
    pub name: Option<String>,
    pub id: Option<String>,
    pub uses: Option<String>,
    pub run: Option<String>,
    pub shell: Option<String>,
    pub working_directory: Option<String>,
    pub condition: Option<String>,
    pub with_inputs: StrMap<String>,
    pub env: StrMap<String>,
    /// Name of the resolved local or remote action.
    pub resolved_action_name: Option<String>,
    /// `runs.using` of the resolved action.
    pub action_runner: Option<String>,
    pub composite_steps: Vec<Step>,
    pub support: SupportTier,
    pub deferred_reasons: Vec<String>,
}

/// A workflow file, normalized.
#[derive(Debug)]
pub struct WorkflowFile {
    pub path: String,
    /// The file's text, when it came from one.
    pub raw_source: Option<String>,
    pub name: Option<String>,
    /// The `on:` value as written.
    pub on: Yaml,
    pub triggers: TriggerSet,
    pub concurrency: Option<Concurrency>,
    pub permissions: Option<Permissions>,
    pub defaults_run: Option<DefaultsRun>,
    pub jobs: StrMap<Job>,
    /// Every job expanded to its run instances, by instance id.
    pub instances: StrMap<JobInstance>,
    pub parse_ok: bool,
    pub file_error: Option<String>,
}

impl WorkflowFile {
    /// The job id that `instance_id` was expanded from, if it names an
    /// instance.
    pub fn base_id_of(&self, instance_id: &str) -> (r: Option<&String>)
        ensures
            match r {
                Some(b) => self.instances.get_spec(instance_id@) matches Some(i) && i.base_id == *b,
                None => self.instances.get_spec(instance_id@) is None,
            },
    {
        match self.instances.get(instance_id) {
            Some(i) => Some(&i.base_id),
            None => None,
        }
    }
}

/// A copy of an optional string.
pub fn copy_opt(o: &Option<String>) -> (r: Option<String>)
    ensures
        r == *o,
{
    match o {
        Some(s) => Some(s.clone()),
        None => None,
    }
}

/// A copy of a list of strings.
pub fn copy_strings(v: &Vec<String>) -> (r: Vec<String>)
    ensures
        r@ == v@,
{
    let mut r: Vec<String> = Vec::new();
    let mut i: usize = 0;
    while i < v.len()
        invariant
            i <= v@.len(),
            r@ == v@.take(i as int),
        decreases v.len() - i,
    {
        r.push(v[i].clone());
        i += 1;
        assert(r@ =~= v@.take(i as int));
    }
    assert(v@.take(i as int) =~= v@);
    r
}

/// `a` and `b` hold the same step: every field equal, composite steps
/// included, at every depth.
pub open spec fn same_step(a: Step, b: Step) -> bool
    decreases a, 1int,
{
    &&& a.name == b.name
    &&& a.id == b.id
    &&& a.uses == b.uses
    &&& a.run == b.run
    &&& a.shell == b.shell
    &&& a.working_directory == b.working_directory
    &&& a.condition == b.condition
    &&& a.with_inputs@ == b.with_inputs@
    &&& a.env@ == b.env@
    &&& a.resolved_action_name == b.resolved_action_name
    &&& a.action_runner == b.action_runner
    &&& a.support == b.support
    &&& a.deferred_reasons@ == b.deferred_reasons@
    &&& same_steps(a.composite_steps@, b.composite_steps@)
}

/// Two lists of steps of one length, the same step at every index.
pub open spec fn same_steps(a: Seq<Step>, b: Seq<Step>) -> bool
    decreases a, 0int,
{
    &&& a.len() == b.len()
    &&& (a.len() > 0 ==> same_step(a.last(), b.last()) && same_steps(a.drop_last(), b.drop_last()))
}

/// Pushing the same step onto two equal lists keeps them equal.
pub proof fn lemma_same_steps_push(a: Seq<Step>, b: Seq<Step>, x: Step, y: Step)
    requires
        same_steps(a, b),
        same_step(x, y),
    ensures
        same_steps(a.push(x), b.push(y)),
{
    assert(a.push(x).drop_last() =~= a);
    assert(b.push(y).drop_last() =~= b);
}

/// A copy of a step and its composite steps.
pub fn copy_step(s: &Step) -> (r: Step)
    ensures
        same_step(r, *s),
    decreases s,
{
    let mut composite: Vec<Step> = Vec::new();
    let mut i: usize = 0;
    while i < s.composite_steps.len()
        invariant
            i <= s.composite_steps@.len(),
            same_steps(composite@, s.composite_steps@.take(i as int)),
        decreases s.composite_steps.len() - i,
    {
        proof {
            vstd::std_specs::vec::axiom_vec_index_decreases(s.composite_steps, i as int);
        }
        let c = copy_step(&s.composite_steps[i]);
        proof {
            lemma_same_steps_push(composite@, s.composite_steps@.take(i as int), c, s.composite_steps@[i as int]);
            assert(s.composite_steps@.take(i as int).push(s.composite_steps@[i as int])
                =~= s.composite_steps@.take(i + 1));
        }
        composite.push(c);
        i += 1;
    }
    assert(s.composite_steps@.take(i as int) =~= s.composite_steps@);
    let r = Step {
        name: copy_opt(&s.name),
        id: copy_opt(&s.id),
        uses: copy_opt(&s.uses),
        run: copy_opt(&s.run),
        shell: copy_opt(&s.shell),
        working_directory: copy_opt(&s.working_directory),
        condition: copy_opt(&s.condition),
        with_inputs: s.with_inputs.duplicate(),
        env: s.env.duplicate(),
        resolved_action_name: copy_opt(&s.resolved_action_name),
        action_runner: copy_opt(&s.action_runner),
        composite_steps: composite,
        support: s.support,
        deferred_reasons: copy_strings(&s.deferred_reasons),
    };
    r
}

/// A copy of a list of steps.
pub fn copy_steps(v: &Vec<Step>) -> (r: Vec<Step>)
    ensures
        r@.len() == v@.len(),
        forall|i: int| 0 <= i < v@.len() ==> #[trigger] same_step(r@[i], v@[i]),
{
    let mut r: Vec<Step> = Vec::new();
    let mut i: usize = 0;
    while i < v.len()
        invariant
            i <= v@.len(),
            r@.len() == i,
            forall|k: int| 0 <= k < i ==> #[trigger] same_step(r@[k], v@[k]),
        decreases v.len() - i,
    {
        r.push(copy_step(&v[i]));
        i += 1;
    }
    r
}

// ---------------------------------------------------------------------------
// Normalization helpers
// ---------------------------------------------------------------------------

/// The map of key/value pairs, later pairs replacing earlier ones of the same
/// key.
pub open spec fn pairs_map(pairs: Seq<(String, String)>) -> Map<Seq<char>, Seq<char>>
    decreases pairs.len(),
{
    if pairs.len() == 0 {
        Map::empty()
    } else {
        pairs_map(pairs.drop_last()).insert(pairs.last().0@, pairs.last().1@)
    }
}

proof fn lemma_map_view_insert(before: StrMap<String>, after: StrMap<String>, k: String, v: String)
    requires
        forall|q: Seq<char>| #[trigger] after.get_spec(q) == if q == k@ {
            Some(v)
        } else {
            before.get_spec(q)
        },
    ensures
        after.map_view() == before.map_view().insert(k@, v@),
{
    assert forall|q: Seq<char>| #[trigger] after.map_view().contains_key(q) == before.map_view().insert(k@, v@).contains_key(q) by {
        let _ = after.get_spec(q);
    }
    assert forall|q: Seq<char>| after.map_view().contains_key(q) implies #[trigger] after.map_view()[q] == before.map_view().insert(
        k@, v@)[q] by {
        let _ = after.get_spec(q);
    }
    assert(after.map_view() =~= before.map_view().insert(k@, v@));
}

/// The map of `pairs`; see [`pairs_map`].
pub fn map_of_pairs(pairs: &Vec<(String, String)>) -> (r: StrMap<String>)
    ensures
        r.map_view() == pairs_map(pairs@),
{
    let mut r: StrMap<String> = StrMap::new();
    assert(r.map_view() =~= Map::<Seq<char>, Seq<char>>::empty());
    assert(pairs@.take(0) =~= Seq::<(String, String)>::empty());
    let mut i: usize = 0;
    while i < pairs.len()
        invariant
            i <= pairs@.len(),
            r.map_view() == pairs_map(pairs@.take(i as int)),
        decreases pairs.len() - i,
    {
        proof {
            assert(pairs@.take(i + 1).drop_last() =~= pairs@.take(i as int));
            assert(pairs@.take(i + 1).last() == pairs@[i as int]);
        }
        let k = pairs[i].0.clone();
        let v = pairs[i].1.clone();
        let ghost before = r;
        r.insert(k, v);
        proof {
            lemma_map_view_insert(before, r, k, v);
        }
        i += 1;
    }
    assert(pairs@.take(i as int) =~= pairs@);
    r
}

/// The pairs of `pairs` with each value as text (a scalar's text, or the text
/// the YAML writer gives any other value), later pairs replacing earlier ones.
pub open spec fn text_pairs_map(pairs: Seq<(String, Yaml)>) -> Map<Seq<char>, Seq<char>>
    decreases pairs.len(),
{
    if pairs.len() == 0 {
        Map::empty()
    } else {
        text_pairs_map(pairs.drop_last()).insert(pairs.last().0@, any_text(pairs.last().1))
    }
}

pub(crate) fn stringify_scalar_map(pairs: &Vec<(String, Yaml)>) -> (r: StrMap<String>)
    ensures
        r.map_view() == text_pairs_map(pairs@),
{
    let mut r: StrMap<String> = StrMap::new();
    assert(r.map_view() =~= Map::<Seq<char>, Seq<char>>::empty());
    assert(pairs@.take(0) =~= Seq::<(String, Yaml)>::empty());
    let mut i: usize = 0;
    while i < pairs.len()
        invariant
            i <= pairs@.len(),
            r.map_view() == text_pairs_map(pairs@.take(i as int)),
        decreases pairs.len() - i,
    {
        proof {
            assert(pairs@.take(i + 1).drop_last() =~= pairs@.take(i as int));
            assert(pairs@.take(i + 1).last() == pairs@[i as int]);
        }
        let k = pairs[i].0.clone();
        let v = to_text(&pairs[i].1);
        let ghost before = r;
        r.insert(k, v);
        proof {
            lemma_map_view_insert(before, r, k, v);
        }
        i += 1;
    }
    assert(pairs@.take(i as int) =~= pairs@);
    r
}

/// The entries of a mapping whose key is a string and whose value is a
/// scalar, as texts; later entries replace earlier ones.
pub open spec fn scalar_entries_map(m: Seq<(Yaml, Yaml)>) -> Map<Seq<char>, Seq<char>>
    decreases m.len(),
{
    if m.len() == 0 {
        Map::empty()
    } else {
        let rest = scalar_entries_map(m.drop_last());
        match (m.last().0.str_spec(), scalar_text(m.last().1)) {
            (Some(k), Some(v)) => rest.insert(k, v),
            _ => rest,
        }
    }
}

fn stringify_mapping(m: &Vec<(Yaml, Yaml)>) -> (r: StrMap<String>)
    ensures
        r.map_view() == scalar_entries_map(m@),
{
    let mut r: StrMap<String> = StrMap::new();
    assert(r.map_view() =~= Map::<Seq<char>, Seq<char>>::empty());
    assert(m@.take(0) =~= Seq::<(Yaml, Yaml)>::empty());
    let mut i: usize = 0;
    while i < m.len()
        invariant
            i <= m@.len(),
            r.map_view() == scalar_entries_map(m@.take(i as int)),
        decreases m.len() - i,
    {
        proof {
            assert(m@.take(i + 1).drop_last() =~= m@.take(i as int));
            assert(m@.take(i + 1).last() == m@[i as int]);
        }
        if let Some(k) = m[i].0.as_str() {
            if let Some(v) = scalar_to_string(&m[i].1) {
                let kk = k.clone();
                let ghost before = r;
                r.insert(kk, v);
                proof {
                    lemma_map_view_insert(before, r, kk, v);
                }
            }
        }
        i += 1;
    }
    assert(m@.take(i as int) =~= m@);
    r
}

/// The text of the value under `key` of a mapping, when a scalar.
pub open spec fn entry_text(m: Seq<(Yaml, Yaml)>, key: Seq<char>) -> Option<Seq<char>> {
    match map_get(m, key) {
        Some(v) => scalar_text(v),
        None => None,
    }
}

fn entry_string(m: &Vec<(Yaml, Yaml)>, key: &str) -> (r: Option<String>)
    ensures
        ostr(r) == entry_text(m@, key@),
{
    match mapping_get(m, key) {
        Some(v) => scalar_to_string(v),
        None => None,
    }
}

/// `concurrency:`: a group name, or a mapping with a scalar `group` (and
/// optionally a boolean `cancel-in-progress`).
pub open spec fn concurrency_spec(v: Yaml) -> Option<(Seq<char>, Option<bool>)> {
    match v {
        Yaml::Str(g) => Some((g@, None)),
        Yaml::Mapping(m, _) => match entry_text(m@, "group"@) {
            None => None,
            Some(g) => Some((g, match map_get(m@, "cancel-in-progress"@) {
                Some(Yaml::Bool(b)) => Some(b),
                _ => None,
            })),
        },
        _ => None,
    }
}

pub open spec fn concurrency_view(c: Option<Concurrency>) -> Option<(Seq<char>, Option<bool>)> {
    match c {
        Some(c) => Some((c.group@, c.cancel_in_progress)),
        None => None,
    }
}

fn normalize_concurrency(v: &Yaml) -> (r: Option<Concurrency>)
    ensures
        concurrency_view(r) == concurrency_spec(*v),
{
    match v {
        Yaml::Str(g) => Some(Concurrency { group: g.clone(), cancel_in_progress: None }),
        Yaml::Mapping(m, _) => {
            let group = match entry_string(m, "group") {
                Some(g) => g,
                None => return None,
            };
            let cancel_in_progress = match mapping_get(m, "cancel-in-progress") {
                Some(Yaml::Bool(b)) => Some(*b),
                _ => None,
            };
            Some(Concurrency { group, cancel_in_progress })
        },
        _ => None,
    }
}

/// The view of [`Permissions`].
pub enum SPermissions {
    ReadAll,
    WriteAll,
    Scoped(Map<Seq<char>, Seq<char>>),
}

pub open spec fn permissions_view(p: Option<Permissions>) -> Option<SPermissions> {
    match p {
        Some(Permissions::ReadAll) => Some(SPermissions::ReadAll),
        Some(Permissions::WriteAll) => Some(SPermissions::WriteAll),
        Some(Permissions::Scoped(m)) => Some(SPermissions::Scoped(m.map_view())),
        None => None,
    }
}

/// `permissions:`: `read-all`, `write-all`, or a mapping of scopes to levels.
pub open spec fn permissions_spec(v: Yaml) -> Option<SPermissions> {
    match v {
        Yaml::Str(s) => if s@ == "read-all"@ {
            Some(SPermissions::ReadAll)
        } else if s@ == "write-all"@ {
            Some(SPermissions::WriteAll)
        } else {
            None
        },
        Yaml::Mapping(m, _) => Some(SPermissions::Scoped(scalar_entries_map(m@))),
        _ => None,
    }
}

fn normalize_permissions(v: &Yaml) -> (r: Option<Permissions>)
    ensures
        permissions_view(r) == permissions_spec(*v),
{
    match v {
        Yaml::Str(s) => if crate::smap::str_eq(s.as_str(), "read-all") {
            Some(Permissions::ReadAll)
        } else if crate::smap::str_eq(s.as_str(), "write-all") {
            Some(Permissions::WriteAll)
        } else {
            None
        },
        Yaml::Mapping(m, _) => Some(Permissions::Scoped(stringify_mapping(m))),
        _ => None,
    }
}

pub open spec fn environment_view(e: Option<Environment>) -> Option<(Seq<char>, Option<Seq<char>>)> {
    match e {
        Some(e) => Some((e.name@, ostr(e.url))),
        None => None,
    }
}

/// `environment:`: a name, or a mapping with a scalar `name` and optional
/// `url`.
pub open spec fn environment_spec(v: Yaml) -> Option<(Seq<char>, Option<Seq<char>>)> {
    match v {
        Yaml::Str(n) => Some((n@, None)),
        Yaml::Mapping(m, _) => match entry_text(m@, "name"@) {
            None => None,
            Some(n) => Some((n, entry_text(m@, "url"@))),
        },
        _ => None,
    }
}

fn normalize_environment(v: &Yaml) -> (r: Option<Environment>)
    ensures
        environment_view(r) == environment_spec(*v),
{
    match v {
        Yaml::Str(n) => Some(Environment { name: n.clone(), url: None }),
        Yaml::Mapping(m, _) => {
            let name = match entry_string(m, "name") {
                Some(n) => n,
                None => return None,
            };
            Some(Environment { name, url: entry_string(m, "url") })
        },
        _ => None,
    }
}

pub open spec fn defaults_view(d: Option<DefaultsRun>) -> Option<(Option<Seq<char>>, Option<Seq<char>>)> {
    match d {
        Some(d) => Some((ostr(d.shell), ostr(d.working_directory))),
        None => None,
    }
}

/// `defaults.run`: its scalar `shell` and `working-directory`.
pub open spec fn defaults_spec(v: Yaml) -> Option<(Option<Seq<char>>, Option<Seq<char>>)> {
    match v {
        Yaml::Mapping(m, _) => match map_get(m@, "run"@) {
            Some(Yaml::Mapping(r, _)) => Some((entry_text(r@, "shell"@), entry_text(r@, "working-directory"@))),
            _ => None,
        },
        _ => None,
    }
}

fn normalize_defaults_run(v: &Yaml) -> (r: Option<DefaultsRun>)
    ensures
        defaults_view(r) == defaults_spec(*v),
{
    let m = match v {
        Yaml::Mapping(m, _) => m,
        _ => return None,
    };
    let run = match mapping_get(m, "run") {
        Some(Yaml::Mapping(r, _)) => r,
        _ => return None,
    };
    Some(DefaultsRun { shell: entry_string(run, "shell"), working_directory: entry_string(run, "working-directory") })
}

/// The kind of a YAML value, as reported in deferral reasons.
pub open spec fn kind_spec(v: Yaml) -> Seq<char> {
    match v {
        Yaml::Null => "null"@,
        Yaml::Bool(_) => "bool"@,
        Yaml::Number(_) => "number"@,
        Yaml::Str(_) => "string"@,
        Yaml::List(_, _) => "sequence"@,
        Yaml::Mapping(_, _) => "mapping"@,
        Yaml::Tagged(_) => "tagged value"@,
    }
}

fn value_kind(v: &Yaml) -> (r: &'static str)
    ensures
        r@ == kind_spec(*v),
{
    match v {
        Yaml::Null => "null",
        Yaml::Bool(_) => "bool",
        Yaml::Number(_) => "number",
        Yaml::Str(_) => "string",
        Yaml::List(_, _) => "sequence",
        Yaml::Mapping(_, _) => "mapping",
        Yaml::Tagged(_) => "tagged value",
    }
}

/// The string items of a sequence, in order.
pub open spec fn string_items(items: Seq<Yaml>) -> Seq<Seq<char>>
    decreases items.len(),
{
    if items.len() == 0 {
        Seq::empty()
    } else {
        let r = string_items(items.drop_last());
        match items.last().str_spec() {
            Some(s) => r.push(s),
            None => r,
        }
    }
}

/// A non-string `runs-on` as text, best effort: a sequence of only string
/// labels joined with `, `; the `group` of a runner-group mapping; nothing
/// otherwise.
pub open spec fn runs_on_text(v: Yaml) -> Option<Seq<char>> {
    match v {
        Yaml::List(items, _) => {
            let labels = string_items(items@);
            if labels.len() == 0 || labels.len() != items@.len() {
                None
            } else {
                Some(join(labels, ", "@))
            }
        },
        Yaml::Mapping(m, _) => match map_get(m@, "group"@) {
            Some(g) => g.str_spec(),
            None => None,
        },
        _ => None,
    }
}

fn stringify_runs_on_best_effort(v: &Yaml) -> (r: Option<String>)
    ensures
        ostr(r) == runs_on_text(*v),
{
    match v {
        Yaml::List(items, _) => {
            let mut labels: Vec<String> = Vec::new();
            let mut i: usize = 0;
            assert(items@.take(0) =~= Seq::<Yaml>::empty());
            assert(views(labels@) =~= Seq::<Seq<char>>::empty());
            while i < items.len()
                invariant
                    i <= items@.len(),
                    views(labels@) == string_items(items@.take(i as int)),
                decreases items.len() - i,
            {
                proof {
                    assert(items@.take(i + 1).drop_last() =~= items@.take(i as int));
                    assert(items@.take(i + 1).last() == items@[i as int]);
                }
                if let Some(s) = items[i].as_str() {
                    let c = s.clone();
                    let ghost before = labels@;
                    labels.push(c);
                    proof {
                        lemma_views_push(before, c);
                    }
                }
                i += 1;
            }
            assert(items@.take(i as int) =~= items@);
            if labels.len() == 0 || labels.len() != items.len() {
                None
            } else {
                Some(join_strings(labels.as_slice(), ", "))
            }
        },
        Yaml::Mapping(m, _) => match mapping_get(m, "group") {
            Some(g) => match g.as_str() {
                Some(s) => Some(s.clone()),
                None => None,
            },
            None => None,
        },
        _ => None,
    }
}

/// The deferral reason of a non-string `runs-on`.
pub open spec fn runs_on_reason(v: Yaml) -> Seq<char> {
    "runs-on is a "@ + kind_spec(v) + " (not a plain string); matrix/expression runners not evaluated in v1"@
}

/// `runs-on`: a string as is; anything else as best-effort text with a
/// deferral reason.
pub open spec fn runs_on_spec(v: Option<Yaml>) -> (Option<Seq<char>>, Seq<Seq<char>>) {
    match v {
        None => (None, Seq::empty()),
        Some(Yaml::Str(s)) => (Some(s@), Seq::empty()),
        Some(other) => (runs_on_text(other), seq![runs_on_reason(other)]),
    }
}

fn normalize_runs_on(raw: &Option<Yaml>, reasons: &mut Vec<String>) -> (r: Option<String>)
    ensures
        ostr(r) == runs_on_spec(*raw).0,
        views(final(reasons)@) == views(old(reasons)@) + runs_on_spec(*raw).1,
{
    match raw {
        None => {
            assert(views(reasons@) =~= views(reasons@) + Seq::<Seq<char>>::empty());
            None
        },
        Some(Yaml::Str(s)) => {
            assert(views(reasons@) =~= views(reasons@) + Seq::<Seq<char>>::empty());
            Some(s.clone())
        },
        Some(other) => {
            let reason = cat3("runs-on is a ", value_kind(other),
                " (not a plain string); matrix/expression runners not evaluated in v1");
            let ghost before = reasons@;
            reasons.push(reason);
            proof {
                lemma_views_push(before, reason);
                assert(views(before).push(reason@) =~= views(before) + seq![runs_on_reason(*other)]);
            }
            stringify_runs_on_best_effort(other)
        },
    }
}

/// The view of a [`Service`].
pub struct SService {
    pub image: Option<Seq<char>>,
    pub ports: Seq<Seq<char>>,
    pub env: Map<Seq<char>, Seq<char>>,
    pub options: Option<Seq<char>>,
}

impl Service {
    pub open spec fn sv(&self) -> SService {
        SService { image: ostr(self.image), ports: views(self.ports@), env: self.env.map_view(), options: ostr(self.options) }
    }
}

pub open spec fn services_view(m: StrMap<Service>) -> Map<Seq<char>, SService> {
    Map::new(|k: Seq<char>| m.get_spec(k) is Some, |k: Seq<char>| m.get_spec(k)->0.sv())
}

/// The scalar items of a sequence as texts (`null` included), in order.
pub open spec fn scalar_texts(items: Seq<Yaml>) -> Seq<Seq<char>>
    decreases items.len(),
{
    if items.len() == 0 {
        Seq::empty()
    } else {
        let r = scalar_texts(items.drop_last());
        match scalar_text(items.last()) {
            Some(t) => r.push(t),
            None => r,
        }
    }
}

/// One `services:` entry: a mapping with optional scalar `image` and
/// `options`, the scalar items of `ports` and the scalar entries of `env`.
pub open spec fn service_spec(v: Yaml) -> Option<SService> {
    match v {
        Yaml::Mapping(m, _) => Some(SService {
            image: entry_text(m@, "image"@),
            ports: match map_get(m@, "ports"@) {
                Some(Yaml::List(items, _)) => scalar_texts(items@),
                _ => Seq::empty(),
            },
            env: match map_get(m@, "env"@) {
                Some(Yaml::Mapping(e, _)) => scalar_entries_map(e@),
                _ => Map::empty(),
            },
            options: entry_text(m@, "options"@),
        }),
        _ => None,
    }
}

/// The services of `pairs` that are mappings, later ones replacing earlier.
pub open spec fn services_spec(pairs: Seq<(String, Yaml)>) -> Map<Seq<char>, SService>
    decreases pairs.len(),
{
    if pairs.len() == 0 {
        Map::empty()
    } else {
        let r = services_spec(pairs.drop_last());
        match service_spec(pairs.last().1) {
            Some(sv) => r.insert(pairs.last().0@, sv),
            None => r,
        }
    }
}

fn scalar_list_texts(items: &Vec<Yaml>) -> (r: Vec<String>)
    ensures
        views(r@) == scalar_texts(items@),
{
    let mut r: Vec<String> = Vec::new();
    let mut i: usize = 0;
    assert(items@.take(0) =~= Seq::<Yaml>::empty());
    assert(views(r@) =~= Seq::<Seq<char>>::empty());
    while i < items.len()
        invariant
            i <= items@.len(),
            views(r@) == scalar_texts(items@.take(i as int)),
        decreases items.len() - i,
    {
        proof {
            assert(items@.take(i + 1).drop_last() =~= items@.take(i as int));
            assert(items@.take(i + 1).last() == items@[i as int]);
        }
        if let Some(t) = scalar_to_string(&items[i]) {
            let ghost before = r@;
            r.push(t);
            proof {
                lemma_views_push(before, t);
            }
        }
        i += 1;
    }
    assert(items@.take(i as int) =~= items@);
    r
}

fn normalize_service(v: &Yaml) -> (r: Option<Service>)
    ensures
        match r {
            Some(x) => service_spec(*v) == Some(x.sv()),
            None => service_spec(*v) is None,
        },
{
    let m = match v {
        Yaml::Mapping(m, _) => m,
        _ => return None,
    };
    let ports = match mapping_get(m, "ports") {
        Some(Yaml::List(items, _)) => scalar_list_texts(items),
        _ => {
            let e: Vec<String> = Vec::new();
            assert(views(e@) =~= Seq::<Seq<char>>::empty());
            e
        },
    };
    let env = match mapping_get(m, "env") {
        Some(Yaml::Mapping(e, _)) => stringify_mapping(e),
        _ => {
            let e: StrMap<String> = StrMap::new();
            assert(e.map_view() =~= Map::<Seq<char>, Seq<char>>::empty());
            e
        },
    };
    Some(Service { image: entry_string(m, "image"), ports, env, options: entry_string(m, "options") })
}

fn normalize_services(pairs: &Vec<(String, Yaml)>) -> (r: StrMap<Service>)
    ensures
        services_view(r) == services_spec(pairs@),
{
    let mut r: StrMap<Service> = StrMap::new();
    assert(services_view(r) =~= Map::<Seq<char>, SService>::empty());
    assert(pairs@.take(0) =~= Seq::<(String, Yaml)>::empty());
    let mut i: usize = 0;
    while i < pairs.len()
        invariant
            i <= pairs@.len(),
            services_view(r) == services_spec(pairs@.take(i as int)),
        decreases pairs.len() - i,
    {
        proof {
            assert(pairs@.take(i + 1).drop_last() =~= pairs@.take(i as int));
            assert(pairs@.take(i + 1).last() == pairs@[i as int]);
        }
        if let Some(sv) = normalize_service(&pairs[i].1) {
            let k = pairs[i].0.clone();
            let ghost before = r;
            let ghost svv = sv;
            r.insert(k, sv);
            proof {
                assert(services_view(r) =~= services_view(before).insert(k@, svv.sv())) by {
                    assert forall|q: Seq<char>| #[trigger] services_view(r).contains_key(q) == services_view(before).insert(
                        k@, svv.sv()).contains_key(q) by {
                        let _ = r.get_spec(q);
                    }
                    assert forall|q: Seq<char>| services_view(r).contains_key(q) implies #[trigger] services_view(r)[q]
                        == services_view(before).insert(k@, svv.sv())[q] by {
                        let _ = r.get_spec(q);
                    }
                }
            }
        }
        i += 1;
    }
    assert(pairs@.take(i as int) =~= pairs@);
    r
}

/// A step's setting (`shell`, or the working directory with `which` false):
/// its own, else the job's default, else the workflow's.
pub open spec fn inherited(
    own: Option<Seq<char>>,
    job: Option<(Option<Seq<char>>, Option<Seq<char>>)>,
    wf: Option<(Option<Seq<char>>, Option<Seq<char>>)>,
    shell: bool,
) -> Option<Seq<char>> {
    let pick = |d: (Option<Seq<char>>, Option<Seq<char>>)| if shell {
        d.0
    } else {
        d.1
    };
    match own {
        Some(s) => Some(s),
        None => match job {
            Some(d) if pick(d) is Some => pick(d),
            _ => match wf {
                Some(d) => pick(d),
                None => None,
            },
        },
    }
}

/// `st` is the normalized form of the raw step `raw` under the job and
/// workflow `defaults.run`.
pub open spec fn step_normalized(
    st: Step,
    raw: RawStep,
    wf: Option<(Option<Seq<char>>, Option<Seq<char>>)>,
    job: Option<(Option<Seq<char>>, Option<Seq<char>>)>,
) -> bool {
    &&& st.name == raw.name
    &&& st.id == raw.id
    &&& st.uses == raw.uses
    &&& st.run == raw.run
    &&& ostr(st.shell) == inherited(ostr(raw.shell), job, wf, true)
    &&& ostr(st.working_directory) == inherited(ostr(raw.working_directory), job, wf, false)
    &&& st.condition == raw.condition
    &&& st.with_inputs.map_view() == text_pairs_map(raw.with_inputs@)
    &&& st.env.map_view() == pairs_map(raw.env@)
    &&& st.resolved_action_name is None
    &&& st.action_runner is None
    &&& st.composite_steps@.len() == 0
    &&& st.support == SupportTier::Supported
    &&& st.deferred_reasons@.len() == 0
}

fn inherit(own: Option<String>, job: Option<&DefaultsRun>, wf: Option<&DefaultsRun>, shell: bool) -> (r: Option<String>)
    ensures
        ostr(r) == inherited(ostr(own), defaults_view(match job {
            Some(d) => Some(*d),
            None => None,
        }), defaults_view(match wf {
            Some(d) => Some(*d),
            None => None,
        }), shell),
{
    if own.is_some() {
        return own;
    }
    let from_job = match job {
        Some(d) => if shell {
            copy_opt(&d.shell)
        } else {
            copy_opt(&d.working_directory)
        },
        None => None,
    };
    if from_job.is_some() {
        return from_job;
    }
    match wf {
        Some(d) => if shell {
            copy_opt(&d.shell)
        } else {
            copy_opt(&d.working_directory)
        },
        None => None,
    }
}

/// A step of a composite action, normalized with no `defaults.run` above it.
pub(crate) fn normalize_action_step(raw: RawStep) -> (r: Step)
    ensures
        step_normalized(r, raw, None, None),
{
    normalize_step(raw, None, None)
}

fn normalize_step(raw: RawStep, wf: Option<&DefaultsRun>, job: Option<&DefaultsRun>) -> (r: Step)
    ensures
        step_normalized(r, raw, defaults_view(match wf {
            Some(d) => Some(*d),
            None => None,
        }), defaults_view(match job {
            Some(d) => Some(*d),
            None => None,
        })),
{
    let ghost rv = raw;
    let with_inputs = stringify_scalar_map(&raw.with_inputs);
    let env = map_of_pairs(&raw.env);
    let shell = inherit(raw.shell, job, wf, true);
    let working_directory = inherit(raw.working_directory, job, wf, false);
    Step {
        name: raw.name,
        id: raw.id,
        uses: raw.uses,
        run: raw.run,
        shell,
        working_directory,
        condition: raw.condition,
        with_inputs,
        env,
        resolved_action_name: None,
        action_runner: None,
        composite_steps: Vec::new(),
        support: SupportTier::Supported,
        deferred_reasons: Vec::new(),
    }
}

/// `uses` names a reusable workflow outside this repository.
pub open spec fn remote_uses(uses: Option<String>) -> bool {
    match uses {
        Some(u) => !has_prefix(u@, "./"@) && !has_prefix(u@, ".github/"@),
        None => false,
    }
}

/// The optional normalization of an optional value.
pub open spec fn opt_concurrency(v: Option<Yaml>) -> Option<(Seq<char>, Option<bool>)> {
    match v {
        Some(y) => concurrency_spec(y),
        None => None,
    }
}

pub open spec fn opt_permissions(v: Option<Yaml>) -> Option<SPermissions> {
    match v {
        Some(y) => permissions_spec(y),
        None => None,
    }
}

pub open spec fn opt_environment(v: Option<Yaml>) -> Option<(Seq<char>, Option<Seq<char>>)> {
    match v {
        Some(y) => environment_spec(y),
        None => None,
    }
}

pub open spec fn opt_defaults(v: Option<Yaml>) -> Option<(Option<Seq<char>>, Option<Seq<char>>)> {
    match v {
        Some(y) => defaults_spec(y),
        None => None,
    }
}

/// `j` is the normalized form of raw job `raw` with id `id` under the
/// workflow's `defaults.run` `wf`: its fields read as their normalizers
/// read them, a non-string `runs-on` deferred with a reason, and the job
/// deferred when it has a deferral reason or calls a reusable workflow
/// outside this repository.
pub open spec fn job_normalized(j: Job, id: Seq<char>, raw: RawJob, wf: Option<(Option<Seq<char>>, Option<Seq<char>>)>) -> bool {
    let (runs_on, reasons) = runs_on_spec(raw.runs_on);
    &&& j.id@ == id
    &&& j.uses == raw.uses
    &&& j.with_inputs.map_view() == text_pairs_map(raw.with_inputs@)
    &&& ostr(j.runs_on) == runs_on
    &&& j.needs == raw.needs
    &&& j.condition == raw.condition
    &&& j.outputs.map_view() == pairs_map(raw.outputs@)
    &&& j.env.map_view() == pairs_map(raw.env@)
    &&& concurrency_view(j.concurrency) == opt_concurrency(raw.concurrency)
    &&& services_view(j.services) == services_spec(raw.services@)
    &&& permissions_view(j.permissions) == opt_permissions(raw.permissions)
    &&& environment_view(j.environment) == opt_environment(raw.environment)
    &&& defaults_view(j.defaults_run) == opt_defaults(raw.defaults)
    &&& j.steps@.len() == raw.steps@.len()
    &&& forall|i: int| 0 <= i < raw.steps@.len() ==> #[trigger] step_normalized(j.steps@[i], raw.steps@[i], wf, opt_defaults(
        raw.defaults))
    &&& j.strategy == raw.strategy
    &&& j.strategy_text == raw.strategy_text
    &&& j.matrix_note is None
    &&& j.support == if reasons.len() == 0 && !remote_uses(raw.uses) {
        SupportTier::Supported
    } else {
        SupportTier::Deferred
    }
    &&& views(j.deferred_reasons@) == reasons
}

fn normalize_job(id: String, raw: RawJob, wf: Option<&DefaultsRun>) -> (r: Job)
    ensures
        job_normalized(r, id@, raw, defaults_view(match wf {
            Some(d) => Some(*d),
            None => None,
        })),
{
    let ghost rv = raw;
    let mut deferred_reasons: Vec<String> = Vec::new();
    assert(views(deferred_reasons@) =~= Seq::<Seq<char>>::empty());
    let remote = match &raw.uses {
        Some(u) => !starts_with(u.as_str(), "./") && !starts_with(u.as_str(), ".github/"),
        None => false,
    };
    let runs_on = normalize_runs_on(&raw.runs_on, &mut deferred_reasons);
    assert(views(deferred_reasons@) =~= runs_on_spec(rv.runs_on).1);
    let concurrency = match &raw.concurrency {
        Some(v) => normalize_concurrency(v),
        None => None,
    };
    let services = normalize_services(&raw.services);
    let permissions = match &raw.permissions {
        Some(v) => normalize_permissions(v),
        None => None,
    };
    let environment = match &raw.environment {
        Some(v) => normalize_environment(v),
        None => None,
    };
    let defaults_run = match &raw.defaults {
        Some(v) => normalize_defaults_run(v),
        None => None,
    };
    let with_inputs = stringify_scalar_map(&raw.with_inputs);
    let outputs = map_of_pairs(&raw.outputs);
    let env = map_of_pairs(&raw.env);
    let RawJob {
        runs_on: _,
        needs,
        condition,
        outputs: _,
        steps: raw_steps,
        env: _,
        concurrency: _,
        services: _,
        permissions: _,
        environment: _,
        defaults: _,
        strategy,
        strategy_text,
        uses,
        with_inputs: _,
        extra: _,
    } = raw;
    let mut raw_steps = raw_steps;
    let ghost rs = raw_steps@;
    let mut rev: Vec<RawStep> = Vec::new();
    while raw_steps.len() > 0
        invariant
            raw_steps@.len() + rev@.len() == rs.len(),
            forall|k: int| 0 <= k < raw_steps@.len() ==> #[trigger] raw_steps@[k] == rs[k],
            forall|k: int| 0 <= k < rev@.len() ==> #[trigger] rev@[k] == rs[rs.len() - 1 - k],
        decreases raw_steps.len(),
    {
        let st = raw_steps.pop().unwrap();
        rev.push(st);
    }
    let mut steps: Vec<Step> = Vec::new();
    let ghost wv = defaults_view(match wf {
        Some(d) => Some(*d),
        None => None,
    });
    let ghost jv = defaults_view(defaults_run);
    while rev.len() > 0
        invariant
            steps@.len() + rev@.len() == rs.len(),
            forall|k: int| 0 <= k < rev@.len() ==> #[trigger] rev@[k] == rs[rs.len() - 1 - k],
            forall|k: int| 0 <= k < steps@.len() ==> #[trigger] step_normalized(steps@[k], rs[k], wv, jv),
            wv == defaults_view(match wf {
                Some(d) => Some(*d),
                None => None,
            }),
            jv == defaults_view(defaults_run),
        decreases rev.len(),
    {
        let k = steps.len();
        let st = rev.pop().unwrap();
        assert(st == rs[k as int]);
        let ns = normalize_step(st, wf, defaults_run.as_ref());
        steps.push(ns);
    }
    let support = if deferred_reasons.len() == 0 && !remote {
        SupportTier::Supported
    } else {
        SupportTier::Deferred
    };
    Job {
        id,
        uses,
        with_inputs,
        runs_on,
        needs,
        condition,
        outputs,
        env,
        concurrency,
        services,
        permissions,
        environment,
        defaults_run,
        steps,
        strategy,
        strategy_text,
        matrix_note: None,
        support,
        deferred_reasons,
    }
}

/// The raw job stored under id `k`: the last one with that id.
pub open spec fn raw_job_for(jobs: Seq<(String, RawJob)>, k: Seq<char>) -> Option<RawJob>
    decreases jobs.len(),
{
    if jobs.len() == 0 {
        None
    } else if jobs.last().0@ == k {
        Some(jobs.last().1)
    } else {
        raw_job_for(jobs.drop_last(), k)
    }
}

/// `pre` holds, under each raw job id, the normalized form of that raw job.
pub open spec fn jobs_normalized(pre: StrMap<Job>, raw: Seq<(String, RawJob)>, wf: Option<(Option<Seq<char>>, Option<Seq<char>>)>)
    -> bool {
    forall|k: Seq<char>| #[trigger] pre.get_spec(k) is Some == raw_job_for(raw, k) is Some && (pre.get_spec(k) is Some
        ==> job_normalized(pre.get_spec(k)->0, k, raw_job_for(raw, k)->0, wf))
}

/// Normalize a parsed workflow: triggers, workflow-level settings and every
/// job read as [`job_normalized`] says, then every job expanded into its
/// instances as [`expanded`] says. Unsupported constructs are deferred with a
/// reason rather than rejected.
pub fn normalize(path: String, raw: RawWorkflow) -> (r: WorkflowFile)
    ensures
        r.path == path,
        r.raw_source is None,
        r.name == raw.name,
        r.on == raw.on,
        r.triggers.sv() == triggers_spec(raw.on),
        concurrency_view(r.concurrency) == opt_concurrency(raw.concurrency),
        permissions_view(r.permissions) == opt_permissions(raw.permissions),
        defaults_view(r.defaults_run) == opt_defaults(raw.defaults),
        r.parse_ok,
        r.file_error is None,
        exists|pre: StrMap<Job>| #[trigger] jobs_normalized(pre, raw.jobs@, opt_defaults(raw.defaults)) && expanded(pre@, r.jobs@,
            r.instances@),
{
    let ghost rv = raw;
    let triggers = TriggerSet::parse(&raw.on);
    let concurrency = match &raw.concurrency {
        Some(v) => normalize_concurrency(v),
        None => None,
    };
    let permissions = match &raw.permissions {
        Some(v) => normalize_permissions(v),
        None => None,
    };
    let defaults_run = match &raw.defaults {
        Some(v) => normalize_defaults_run(v),
        None => None,
    };
    let RawWorkflow { name, on, concurrency: _, permissions: _, defaults: _, jobs: raw_jobs, extra: _ } = raw;
    let mut raw_jobs = raw_jobs;
    let ghost rj = raw_jobs@;
    let total = raw_jobs.len();
    let mut rev: Vec<(String, RawJob)> = Vec::new();
    while raw_jobs.len() > 0
        invariant
            raw_jobs@.len() + rev@.len() == rj.len(),
            forall|k: int| 0 <= k < raw_jobs@.len() ==> #[trigger] raw_jobs@[k] == rj[k],
            forall|k: int| 0 <= k < rev@.len() ==> #[trigger] rev@[k] == rj[rj.len() - 1 - k],
        decreases raw_jobs.len(),
    {
        let e = raw_jobs.pop().unwrap();
        rev.push(e);
    }
    let ghost wv = defaults_view(defaults_run);
    let mut jobs: StrMap<Job> = StrMap::new();
    let mut done: usize = 0;
    assert(rj.take(0) =~= Seq::<(String, RawJob)>::empty());
    while rev.len() > 0
        invariant
            done + rev@.len() == rj.len(),
            rj.len() == total,
            forall|k: int| 0 <= k < rev@.len() ==> #[trigger] rev@[k] == rj[rj.len() - 1 - k],
            wv == defaults_view(defaults_run),
            jobs_normalized(jobs, rj.take(done as int), wv),
        decreases rev.len(),
    {
        let (id, rjob) = rev.pop().unwrap();
        assert((id, rjob) == rj[done as int]);
        let key = id.clone();
        let job = normalize_job(id, rjob, defaults_run.as_ref());
        let ghost before = jobs;
        let ghost jv = job;
        jobs.insert(key, job);
        proof {
            assert(rj.take(done + 1).drop_last() =~= rj.take(done as int));
            assert(rj.take(done + 1).last() == rj[done as int]);
            assert forall|k: Seq<char>| #[trigger] jobs.get_spec(k) is Some == raw_job_for(rj.take(done + 1), k) is Some
                && (jobs.get_spec(k) is Some ==> job_normalized(jobs.get_spec(k)->0, k, raw_job_for(rj.take(done + 1), k)->0,
                wv)) by {
                let _ = before.get_spec(k);
            }
        }
        done += 1;
    }
    assert(rj.take(done as int) =~= rj);
    let ghost pre = jobs;
    let instances = expand_workflow(&mut jobs);
    WorkflowFile {
        path,
        raw_source: None,
        name,
        on,
        triggers,
        concurrency,
        permissions,
        defaults_run,
        jobs,
        instances,
        parse_ok: true,
        file_error: None,
    }
}

} // verus!
