//! Structured reading of the common `on:` trigger shapes: `push` branch and
//! tag filters, `pull_request` types, `schedule` crons and the inputs of
//! `workflow_dispatch` and `workflow_call`.

use vstd::prelude::*;

use crate::smap::{StrMap, lookup, lemma_lookup_some};
use crate::text::{has_prefix, strip_prefix, views};
use crate::yaml::{Yaml, map_get, mapping_get, scalar_string, scalar_string_spec};
use crate::smap::str_eq;

verus! {

/// The triggers a workflow declares.
#[derive(Debug)]
pub struct TriggerSet {
    pub push: Option<PushTrigger>,
    pub pull_request: Option<PullRequestTrigger>,
    pub schedules: Vec<ScheduleTrigger>,
    pub workflow_dispatch: Option<WorkflowDispatchTrigger>,
    pub workflow_call: Option<WorkflowCallTrigger>,
}

/// `on.push` filters.
#[derive(Debug)]
pub struct PushTrigger {
    pub branches: Vec<String>,
    pub branches_ignore: Vec<String>,
    pub tags: Vec<String>,
    pub tags_ignore: Vec<String>,
}

/// `on.pull_request` activity types.
#[derive(Debug)]
pub struct PullRequestTrigger {
    pub types: Vec<String>,
}

/// One `on.schedule` entry.
#[derive(Debug)]
pub struct ScheduleTrigger {
    pub cron: String,
}

/// `on.workflow_dispatch` inputs.
#[derive(Debug)]
pub struct WorkflowDispatchTrigger {
    pub inputs: StrMap<TriggerInput>,
}

/// `on.workflow_call` inputs.
#[derive(Debug)]
pub struct WorkflowCallTrigger {
    pub inputs: StrMap<TriggerInput>,
}

/// The declaration of one input.
#[derive(Debug)]
pub struct TriggerInput {
    pub description: Option<String>,
    pub required: bool,
    pub default: Option<String>,
    pub input_type: Option<String>,
    pub options: Vec<String>,
}

// ---------------------------------------------------------------------------
// Views
// ---------------------------------------------------------------------------

pub struct SPush {
    pub branches: Seq<Seq<char>>,
    pub branches_ignore: Seq<Seq<char>>,
    pub tags: Seq<Seq<char>>,
    pub tags_ignore: Seq<Seq<char>>,
}

pub struct SInput {
    pub description: Option<Seq<char>>,
    pub required: bool,
    pub default: Option<Seq<char>>,
    pub input_type: Option<Seq<char>>,
    pub options: Seq<Seq<char>>,
}

pub struct STriggers {
    pub push: Option<SPush>,
    pub pull_request: Option<Seq<Seq<char>>>,
    pub schedules: Seq<Seq<char>>,
    pub workflow_dispatch: Option<Map<Seq<char>, SInput>>,
    pub workflow_call: Option<Map<Seq<char>, SInput>>,
}

pub open spec fn ostr(o: Option<String>) -> Option<Seq<char>> {
    match o {
        Some(s) => Some(s@),
        None => None,
    }
}

impl PushTrigger {
    pub open spec fn sv(&self) -> SPush {
        SPush {
            branches: views(self.branches@),
            branches_ignore: views(self.branches_ignore@),
            tags: views(self.tags@),
            tags_ignore: views(self.tags_ignore@),
        }
    }
}

impl TriggerInput {
    pub open spec fn sv(&self) -> SInput {
        SInput {
            description: ostr(self.description),
            required: self.required,
            default: ostr(self.default),
            input_type: ostr(self.input_type),
            options: views(self.options@),
        }
    }
}

/// The inputs as a mathematical map.
pub open spec fn inputs_view(m: StrMap<TriggerInput>) -> Map<Seq<char>, SInput> {
    Map::new(|k: Seq<char>| m.get_spec(k) is Some, |k: Seq<char>| match m.get_spec(k) {
        Some(i) => i.sv(),
        None => SInput { description: None, required: false, default: None, input_type: None, options: Seq::empty() },
    })
}

pub open spec fn crons(s: Seq<ScheduleTrigger>) -> Seq<Seq<char>> {
    s.map_values(|t: ScheduleTrigger| t.cron@)
}

impl TriggerSet {
    pub open spec fn sv(&self) -> STriggers {
        STriggers {
            push: match self.push {
                Some(p) => Some(p.sv()),
                None => None,
            },
            pull_request: match self.pull_request {
                Some(p) => Some(views(p.types@)),
                None => None,
            },
            schedules: crons(self.schedules@),
            workflow_dispatch: match self.workflow_dispatch {
                Some(d) => Some(inputs_view(d.inputs)),
                None => None,
            },
            workflow_call: match self.workflow_call {
                Some(c) => Some(inputs_view(c.inputs)),
                None => None,
            },
        }
    }
}

// ---------------------------------------------------------------------------
// Reading the `on:` value
// ---------------------------------------------------------------------------

/// The texts of the string, boolean and number items, in order.
pub open spec fn scalar_strings(items: Seq<Yaml>) -> Seq<Seq<char>>
    decreases items.len(),
{
    if items.len() == 0 {
        Seq::empty()
    } else {
        let rest = scalar_strings(items.drop_last());
        match scalar_string_spec(items.last()) {
            Some(s) => rest.push(s),
            None => rest,
        }
    }
}

/// A key's value as a list of strings: the scalar items of a sequence, or a
/// single scalar.
pub open spec fn string_list_spec(m: Seq<(Yaml, Yaml)>, key: Seq<char>) -> Seq<Seq<char>> {
    match map_get(m, key) {
        Some(Yaml::List(items, _)) => scalar_strings(items@),
        Some(v) => match scalar_string_spec(v) {
            Some(s) => seq![s],
            None => Seq::empty(),
        },
        None => Seq::empty(),
    }
}

fn scalar_list(items: &Vec<Yaml>) -> (r: Vec<String>)
    ensures
        views(r@) == scalar_strings(items@),
{
    let mut r: Vec<String> = Vec::new();
    let mut i: usize = 0;
    while i < items.len()
        invariant
            i <= items@.len(),
            views(r@) == scalar_strings(items@.take(i as int)),
        decreases items.len() - i,
    {
        let ghost before = r@;
        proof {
            assert(items@.take(i + 1).drop_last() =~= items@.take(i as int));
            assert(items@.take(i + 1).last() == items@[i as int]);
        }
        if let Some(s) = scalar_string(&items[i]) {
            r.push(s);
            assert(views(r@) =~= views(before).push(s@));
        }
        i += 1;
    }
    assert(items@.take(i as int) =~= items@);
    r
}

fn string_list(m: &Vec<(Yaml, Yaml)>, key: &str) -> (r: Vec<String>)
    ensures
        views(r@) == string_list_spec(m@, key@),
{
    match mapping_get(m, key) {
        Some(Yaml::List(items, _)) => scalar_list(items),
        Some(v) => match scalar_string(v) {
            Some(s) => {
                let r = vec![s];
                assert(views(r@) =~= seq![r@[0]@]);
                r
            },
            None => {
                let r: Vec<String> = Vec::new();
                assert(views(r@) =~= Seq::<Seq<char>>::empty());
                r
            },
        },
        None => {
            let r: Vec<String> = Vec::new();
            assert(views(r@) =~= Seq::<Seq<char>>::empty());
            r
        },
    }
}

/// `on.push`: the four filter lists of a mapping, all empty otherwise.
pub open spec fn push_spec(v: Yaml) -> SPush {
    match v {
        Yaml::Mapping(m, _) => SPush {
            branches: string_list_spec(m@, "branches"@),
            branches_ignore: string_list_spec(m@, "branches-ignore"@),
            tags: string_list_spec(m@, "tags"@),
            tags_ignore: string_list_spec(m@, "tags-ignore"@),
        },
        _ => SPush { branches: Seq::empty(), branches_ignore: Seq::empty(), tags: Seq::empty(), tags_ignore: Seq::empty() },
    }
}

fn parse_push(v: &Yaml) -> (r: PushTrigger)
    ensures
        r.sv() == push_spec(*v),
{
    match v {
        Yaml::Mapping(m, _) => PushTrigger {
            branches: string_list(m, "branches"),
            branches_ignore: string_list(m, "branches-ignore"),
            tags: string_list(m, "tags"),
            tags_ignore: string_list(m, "tags-ignore"),
        },
        _ => {
            let r = PushTrigger { branches: Vec::new(), branches_ignore: Vec::new(), tags: Vec::new(), tags_ignore: Vec::new() };
            assert(r.sv().branches =~= Seq::<Seq<char>>::empty());
            assert(r.sv().branches_ignore =~= Seq::<Seq<char>>::empty());
            assert(r.sv().tags =~= Seq::<Seq<char>>::empty());
            assert(r.sv().tags_ignore =~= Seq::<Seq<char>>::empty());
            r
        },
    }
}

/// `on.pull_request`: the `types` list of a mapping, empty otherwise.
pub open spec fn pull_request_spec(v: Yaml) -> Seq<Seq<char>> {
    match v {
        Yaml::Mapping(m, _) => string_list_spec(m@, "types"@),
        _ => Seq::empty(),
    }
}

fn parse_pull_request(v: &Yaml) -> (r: PullRequestTrigger)
    ensures
        views(r.types@) == pull_request_spec(*v),
{
    match v {
        Yaml::Mapping(m, _) => PullRequestTrigger { types: string_list(m, "types") },
        _ => {
            let r = PullRequestTrigger { types: Vec::new() };
            assert(views(r.types@) =~= Seq::<Seq<char>>::empty());
            r
        },
    }
}

/// The cron of one schedule entry: a mapping whose `cron` is a scalar.
pub open spec fn cron_of(v: Yaml) -> Option<Seq<char>> {
    match v {
        Yaml::Mapping(m, _) => match map_get(m@, "cron"@) {
            Some(c) => scalar_string_spec(c),
            None => None,
        },
        _ => None,
    }
}

/// The crons of the schedule entries, in order.
pub open spec fn crons_of(items: Seq<Yaml>) -> Seq<Seq<char>>
    decreases items.len(),
{
    if items.len() == 0 {
        Seq::empty()
    } else {
        let rest = crons_of(items.drop_last());
        match cron_of(items.last()) {
            Some(c) => rest.push(c),
            None => rest,
        }
    }
}

/// `on.schedule`: the crons of a sequence, none otherwise.
pub open spec fn schedules_spec(v: Yaml) -> Seq<Seq<char>> {
    match v {
        Yaml::List(items, _) => crons_of(items@),
        _ => Seq::empty(),
    }
}

fn parse_schedules(v: &Yaml) -> (r: Vec<ScheduleTrigger>)
    ensures
        crons(r@) == schedules_spec(*v),
{
    let mut r: Vec<ScheduleTrigger> = Vec::new();
    if let Yaml::List(items, _) = v {
        let mut i: usize = 0;
        while i < items.len()
            invariant
                i <= items@.len(),
                crons(r@) == crons_of(items@.take(i as int)),
            decreases items.len() - i,
        {
            let ghost before = r@;
            proof {
                assert(items@.take(i + 1).drop_last() =~= items@.take(i as int));
                assert(items@.take(i + 1).last() == items@[i as int]);
            }
            if let Yaml::Mapping(m, _) = &items[i] {
                if let Some(c) = mapping_get(m, "cron") {
                    if let Some(cron) = scalar_string(c) {
                        r.push(ScheduleTrigger { cron });
                        assert(crons(r@) =~= crons(before).push(r@.last().cron@));
                    }
                }
            }
            i += 1;
        }
        assert(items@.take(i as int) =~= items@);
    } else {
        assert(crons(r@) =~= Seq::<Seq<char>>::empty());
    }
    r
}

/// An optional key of an optional schema mapping, as a scalar's text.
pub open spec fn schema_text(schema: Option<Seq<(Yaml, Yaml)>>, key: Seq<char>) -> Option<Seq<char>> {
    match schema {
        Some(m) => match map_get(m, key) {
            Some(v) => scalar_string_spec(v),
            None => None,
        },
        None => None,
    }
}

/// The declaration of one input from its schema value.
pub open spec fn input_spec(schema: Yaml) -> SInput {
    let m = match schema {
        Yaml::Mapping(m, _) => Some(m@),
        _ => None,
    };
    SInput {
        description: schema_text(m, "description"@),
        required: match m {
            Some(m) => match map_get(m, "required"@) {
                Some(Yaml::Bool(b)) => b,
                _ => false,
            },
            None => false,
        },
        default: schema_text(m, "default"@),
        input_type: schema_text(m, "type"@),
        options: match m {
            Some(m) => string_list_spec(m, "options"@),
            None => Seq::empty(),
        },
    }
}

/// The inputs declared by the entries `e`, later entries replacing earlier
/// ones of the same name; entries whose key is not a string are skipped.
pub open spec fn inputs_from(e: Seq<(Yaml, Yaml)>) -> Map<Seq<char>, SInput>
    decreases e.len(),
{
    if e.len() == 0 {
        Map::empty()
    } else {
        let rest = inputs_from(e.drop_last());
        match e.last().0.str_spec() {
            Some(name) => rest.insert(name, input_spec(e.last().1)),
            None => rest,
        }
    }
}

/// The `inputs` of a trigger's configuration mapping.
pub open spec fn inputs_spec(config: Yaml) -> Map<Seq<char>, SInput> {
    match config {
        Yaml::Mapping(c, _) => match map_get(c@, "inputs"@) {
            Some(Yaml::Mapping(i, _)) => inputs_from(i@),
            _ => Map::empty(),
        },
        _ => Map::empty(),
    }
}

fn schema_string(schema: Option<&Vec<(Yaml, Yaml)>>, key: &str) -> (r: Option<String>)
    ensures
        ostr(r) == schema_text(match schema {
            Some(m) => Some(m@),
            None => None,
        }, key@),
{
    match schema {
        Some(m) => match mapping_get(m, key) {
            Some(v) => scalar_string(v),
            None => None,
        },
        None => None,
    }
}

fn parse_input(schema: &Yaml) -> (r: TriggerInput)
    ensures
        r.sv() == input_spec(*schema),
{
    let m: Option<&Vec<(Yaml, Yaml)>> = match schema {
        Yaml::Mapping(m, _) => Some(m),
        _ => None,
    };
    let required = match m {
        Some(m) => match mapping_get(m, "required") {
            Some(Yaml::Bool(b)) => *b,
            _ => false,
        },
        None => false,
    };
    let options = match m {
        Some(m) => string_list(m, "options"),
        None => Vec::new(),
    };
    let r = TriggerInput {
        description: schema_string(m, "description"),
        required,
        default: schema_string(m, "default"),
        input_type: schema_string(m, "type"),
        options,
    };
    assert(r.sv().options =~= input_spec(*schema).options);
    r
}

fn parse_inputs(config: &Yaml) -> (r: StrMap<TriggerInput>)
    ensures
        inputs_view(r) == inputs_spec(*config),
{
    let mut r: StrMap<TriggerInput> = StrMap::new();
    let entries = match config {
        Yaml::Mapping(c, _) => match mapping_get(c, "inputs") {
            Some(Yaml::Mapping(i, _)) => i,
            _ => {
                assert(inputs_view(r) =~= Map::<Seq<char>, SInput>::empty());
                return r;
            },
        },
        _ => {
            assert(inputs_view(r) =~= Map::<Seq<char>, SInput>::empty());
            return r;
        },
    };
    let mut i: usize = 0;
    assert(inputs_view(r) =~= inputs_from(entries@.take(0)));
    while i < entries.len()
        invariant
            i <= entries@.len(),
            inputs_view(r) == inputs_from(entries@.take(i as int)),
        decreases entries.len() - i,
    {
        proof {
            assert(entries@.take(i + 1).drop_last() =~= entries@.take(i as int));
            assert(entries@.take(i + 1).last() == entries@[i as int]);
        }
        if let Some(name) = entries[i].0.as_str() {
            let input = parse_input(&entries[i].1);
            let ghost before = inputs_view(r);
            let ghost nv = name@;
            let ghost iv = input.sv();
            r.insert(name.clone(), input);
            assert(inputs_view(r) =~= before.insert(nv, iv));
        }
        i += 1;
    }
    assert(entries@.take(i as int) =~= entries@);
    r
}

/// The effect of one event name with its configuration on the triggers read
/// so far; unknown event names change nothing.
pub open spec fn enable_spec(t: STriggers, event: Seq<char>, config: Yaml) -> STriggers {
    if event == "push"@ {
        STriggers { push: Some(push_spec(config)), ..t }
    } else if event == "pull_request"@ {
        STriggers { pull_request: Some(pull_request_spec(config)), ..t }
    } else if event == "schedule"@ {
        STriggers { schedules: schedules_spec(config), ..t }
    } else if event == "workflow_dispatch"@ {
        STriggers { workflow_dispatch: Some(inputs_spec(config)), ..t }
    } else if event == "workflow_call"@ {
        STriggers { workflow_call: Some(inputs_spec(config)), ..t }
    } else {
        t
    }
}

/// No trigger at all.
pub open spec fn no_triggers() -> STriggers {
    STriggers {
        push: None,
        pull_request: None,
        schedules: Seq::empty(),
        workflow_dispatch: None,
        workflow_call: None,
    }
}

/// The events named by the string items of a sequence, in order.
pub open spec fn enable_names(t: STriggers, items: Seq<Yaml>) -> STriggers
    decreases items.len(),
{
    if items.len() == 0 {
        t
    } else {
        let before = enable_names(t, items.drop_last());
        match items.last().str_spec() {
            Some(e) => enable_spec(before, e, Yaml::Null),
            None => before,
        }
    }
}

/// The events of a mapping with their configurations, in order.
pub open spec fn enable_entries(t: STriggers, e: Seq<(Yaml, Yaml)>) -> STriggers
    decreases e.len(),
{
    if e.len() == 0 {
        t
    } else {
        let before = enable_entries(t, e.drop_last());
        match e.last().0.str_spec() {
            Some(name) => enable_spec(before, name, e.last().1),
            None => before,
        }
    }
}

/// What the `on:` value declares: one event name, a sequence of names, or a
/// mapping from names to configurations; nothing otherwise.
pub open spec fn triggers_spec(v: Yaml) -> STriggers {
    match v {
        Yaml::Str(e) => enable_spec(no_triggers(), e@, Yaml::Null),
        Yaml::List(items, _) => enable_names(no_triggers(), items@),
        Yaml::Mapping(m, _) => enable_entries(no_triggers(), m@),
        _ => no_triggers(),
    }
}

impl TriggerSet {
    /// No triggers.
    pub fn empty() -> (r: Self)
        ensures
            r.sv() == no_triggers(),
    {
        let r = TriggerSet {
            push: None,
            pull_request: None,
            schedules: Vec::new(),
            workflow_dispatch: None,
            workflow_call: None,
        };
        assert(r.sv().schedules =~= Seq::<Seq<char>>::empty());
        r
    }

    fn enable(&mut self, event: &str, config: &Yaml)
        ensures
            final(self).sv() == enable_spec(old(self).sv(), event@, *config),
    {
        if str_eq(event, "push") {
            self.push = Some(parse_push(config));
        } else if str_eq(event, "pull_request") {
            self.pull_request = Some(parse_pull_request(config));
        } else if str_eq(event, "schedule") {
            self.schedules = parse_schedules(config);
        } else if str_eq(event, "workflow_dispatch") {
            self.workflow_dispatch = Some(WorkflowDispatchTrigger { inputs: parse_inputs(config) });
        } else if str_eq(event, "workflow_call") {
            self.workflow_call = Some(WorkflowCallTrigger { inputs: parse_inputs(config) });
        }
    }

    /// Read the triggers of an `on:` value; see [`triggers_spec`].
    pub fn parse(value: &Yaml) -> (r: Self)
        ensures
            r.sv() == triggers_spec(*value),
    {
        let mut t = TriggerSet::empty();
        match value {
            Yaml::Str(e) => {
                t.enable(e.as_str(), &Yaml::Null);
            },
            Yaml::List(items, _) => {
                let mut i: usize = 0;
                while i < items.len()
                    invariant
                        i <= items@.len(),
                        t.sv() == enable_names(no_triggers(), items@.take(i as int)),
                    decreases items.len() - i,
                {
                    proof {
                        assert(items@.take(i + 1).drop_last() =~= items@.take(i as int));
                        assert(items@.take(i + 1).last() == items@[i as int]);
                    }
                    if let Some(e) = items[i].as_str() {
                        t.enable(e.as_str(), &Yaml::Null);
                    }
                    i += 1;
                }
                assert(items@.take(i as int) =~= items@);
            },
            Yaml::Mapping(m, _) => {
                let mut i: usize = 0;
                while i < m.len()
                    invariant
                        i <= m@.len(),
                        t.sv() == enable_entries(no_triggers(), m@.take(i as int)),
                    decreases m.len() - i,
                {
                    proof {
                        assert(m@.take(i + 1).drop_last() =~= m@.take(i as int));
                        assert(m@.take(i + 1).last() == m@[i as int]);
                    }
                    if let Some(e) = m[i].0.as_str() {
                        t.enable(e.as_str(), &m[i].1);
                    }
                    i += 1;
                }
                assert(m@.take(i as int) =~= m@);
            },
            _ => {},
        }
        t
    }
}

// ---------------------------------------------------------------------------
// Queries
// ---------------------------------------------------------------------------

/// Whether `glob::Pattern` compiles `pattern` and, if so, whether the compiled
/// pattern matches `text`; `None` when the pattern does not compile.
pub uninterp spec fn glob_match(pattern: Seq<char>, text: Seq<char>) -> Option<bool>;

/// Compiles `pattern` with `glob::Pattern::new` and, when it compiles, tests
/// `text` with `Pattern::matches`; the outcome is named, not described.
#[verifier::external_body]
fn glob_matches(pattern: &str, text: &str) -> (r: Option<bool>)
    ensures
        r == glob_match(pattern@, text@),
{
    match glob::Pattern::new(pattern) {
        Ok(p) => Some(p.matches(text)),
        Err(_) => None,
    }
}

/// A branch filter pattern matches a branch: by glob when the pattern
/// compiles, by equality otherwise.
pub open spec fn pattern_matches(pattern: Seq<char>, branch: Seq<char>) -> bool {
    match glob_match(pattern, branch) {
        Some(m) => m,
        None => pattern == branch,
    }
}

fn matches_pattern(pattern: &str, branch: &str) -> (r: bool)
    ensures
        r == pattern_matches(pattern@, branch@),
{
    match glob_matches(pattern, branch) {
        Some(m) => m,
        None => str_eq(pattern, branch),
    }
}

/// Some pattern of `pats` matches `branch`.
pub open spec fn any_matches(pats: Seq<Seq<char>>, branch: Seq<char>) -> bool {
    exists|i: int| 0 <= i < pats.len() && #[trigger] pattern_matches(pats[i], branch)
}

fn any_pattern_matches(pats: &Vec<String>, branch: &str) -> (r: bool)
    ensures
        r == any_matches(views(pats@), branch@),
{
    let mut i: usize = 0;
    while i < pats.len()
        invariant
            i <= pats@.len(),
            forall|k: int| 0 <= k < i ==> !#[trigger] pattern_matches(views(pats@)[k], branch@),
        decreases pats.len() - i,
    {
        if matches_pattern(pats[i].as_str(), branch) {
            assert(pattern_matches(views(pats@)[i as int], branch@));
            return true;
        }
        i += 1;
    }
    false
}

/// A push of `git_ref` under event `event` is excluded by the push branch
/// filters: only for a `push` event, a `push` trigger with a branch filter and
/// a branch ref; the branch is excluded when it matches no allowed pattern
/// (if any are given) or matches an ignored one.
pub open spec fn branch_mismatch_spec(t: STriggers, event: Seq<char>, git_ref: Seq<char>) -> bool {
    let branch = git_ref.skip("refs/heads/"@.len() as int);
    match t.push {
        Some(p) => event == "push"@ && has_prefix(git_ref, "refs/heads/"@)
            && !(p.branches.len() == 0 && p.branches_ignore.len() == 0)
            && (!(p.branches.len() == 0 || any_matches(p.branches, branch)) || any_matches(p.branches_ignore, branch)),
        None => false,
    }
}

/// Law of the push branch filters, for a push to `refs/heads/<b>` under a
/// `push` trigger: a `branches-ignore` pattern that matches `b` excludes the
/// push whatever `branches` holds; a non-empty `branches` list none of whose
/// patterns matches `b` excludes it too; and a push that no ignore pattern
/// matches and that `branches` admits (no list, or a matching pattern) is
/// kept. Events other than `push`, and refs that are not branches (tags),
/// are never excluded.
pub proof fn lemma_push_branch_filters(t: STriggers, b: Seq<char>, event: Seq<char>, git_ref: Seq<char>)
    requires
        t.push is Some,
    ensures
        (exists|i: int| 0 <= i < t.push->0.branches_ignore.len()
            && #[trigger] pattern_matches(t.push->0.branches_ignore[i], b))
            ==> branch_mismatch_spec(t, "push"@, "refs/heads/"@ + b),
        (t.push->0.branches.len() > 0 && forall|i: int| 0 <= i < t.push->0.branches.len()
            ==> !#[trigger] pattern_matches(t.push->0.branches[i], b))
            ==> branch_mismatch_spec(t, "push"@, "refs/heads/"@ + b),
        ((forall|i: int| 0 <= i < t.push->0.branches_ignore.len()
            ==> !#[trigger] pattern_matches(t.push->0.branches_ignore[i], b))
            && (t.push->0.branches.len() == 0 || exists|i: int| 0 <= i < t.push->0.branches.len()
                && #[trigger] pattern_matches(t.push->0.branches[i], b)))
            ==> !branch_mismatch_spec(t, "push"@, "refs/heads/"@ + b),
        event != "push"@ ==> !branch_mismatch_spec(t, event, git_ref),
        !has_prefix(git_ref, "refs/heads/"@) ==> !branch_mismatch_spec(t, event, git_ref),
{
    let r = "refs/heads/"@ + b;
    assert(r.subrange(0, "refs/heads/"@.len() as int) =~= "refs/heads/"@);
    assert(has_prefix(r, "refs/heads/"@));
    assert(r.skip("refs/heads/"@.len() as int) =~= b);
}

/// The default of a declared input, if it has one.
pub open spec fn default_of(i: Option<TriggerInput>) -> Option<Seq<char>> {
    match i {
        Some(t) => ostr(t.default),
        None => None,
    }
}

/// The defaults declared by `workflow_dispatch` inputs, by input name.
pub open spec fn defaults_spec(t: STriggers) -> Map<Seq<char>, Seq<char>> {
    match t.workflow_dispatch {
        Some(m) => Map::new(|k: Seq<char>| m.contains_key(k) && m[k].default is Some, |k: Seq<char>| m[k].default->0),
        None => Map::empty(),
    }
}

impl TriggerSet {
    /// The defaults of the `workflow_dispatch` inputs that declare one.
    pub fn dispatch_defaults(&self) -> (r: StrMap<String>)
        ensures
            r.map_view() == defaults_spec(self.sv()),
    {
        let mut r: StrMap<String> = StrMap::new();
        match &self.workflow_dispatch {
            None => {
                assert(r.map_view() =~= Map::<Seq<char>, Seq<char>>::empty());
                r
            },
            Some(d) => {
                let n = d.inputs.len();
                let mut i: usize = 0;
                while i < n
                    invariant
                        i <= n == d.inputs@.len(),
                        crate::smap::strictly_sorted(d.inputs@),
                        forall|q: Seq<char>| #[trigger] ostr(r.get_spec(q)) == default_of(
                            lookup(d.inputs@.take(i as int), q)),
                    decreases n - i,
                {
                    let key = d.inputs.key_at(i);
                    let input = d.inputs.value_at(i);
                    let ghost kv = key@;
                    let ghost e = d.inputs@[i as int];
                    proof {
                        assert forall|q: Seq<char>| #[trigger] lookup(d.inputs@.take(i + 1), q) == if q == kv {
                            Some(e.1)
                        } else {
                            lookup(d.inputs@.take(i as int), q)
                        } by {
                            crate::smap::lemma_lookup_append(d.inputs@.take(i as int), e, q);
                            assert(d.inputs@.take(i + 1) =~= d.inputs@.take(i as int).push(e));
                            if q == kv {
                                assert forall|j: int| 0 <= j < i implies (#[trigger] d.inputs@.take(i as int)[j]).0 != q by {
                                    assert(crate::smap::lex_lt(d.inputs@[j].0, d.inputs@[i as int].0));
                                    crate::smap::lemma_lex_irreflexive(q);
                                }
                                crate::smap::lemma_lookup_absent(d.inputs@.take(i as int), q);
                            }
                        }
                    }
                    let ghost prev = r;
                    match &input.default {
                        Some(v) => {
                            r.insert(key.clone(), v.clone());
                        },
                        None => {},
                    }
                    proof {
                        assert forall|q: Seq<char>| #[trigger] ostr(r.get_spec(q)) == default_of(
                            lookup(d.inputs@.take(i + 1), q)) by {
                            assert(ostr(prev.get_spec(q)) == default_of(lookup(d.inputs@.take(i as int), q)));
                            assert(e.1 == *input);
                            assert(e.0 == kv);
                            if q == kv {
                                assert(lookup(d.inputs@.take(i + 1), q) == Some(e.1));
                                assert forall|j: int| 0 <= j < i implies (#[trigger] d.inputs@.take(i as int)[j]).0 != q by {
                                    assert(crate::smap::lex_lt(d.inputs@[j].0, d.inputs@[i as int].0));
                                    crate::smap::lemma_lex_irreflexive(q);
                                }
                                crate::smap::lemma_lookup_absent(d.inputs@.take(i as int), q);
                                match input.default {
                                    Some(v) => {
                                        assert(r.get_spec(q) == Some(v));
                                    },
                                    None => {
                                        assert(r == prev);
                                    },
                                }
                            } else {
                                assert(lookup(d.inputs@.take(i + 1), q) == lookup(d.inputs@.take(i as int), q));
                                assert(r.get_spec(q) == prev.get_spec(q));
                            }
                        }
                    }
                    i += 1;
                }
                assert(d.inputs@.take(n as int) =~= d.inputs@);
                let ghost want = defaults_spec(self.sv());
                let ghost iv = inputs_view(d.inputs);
                assert(self.sv().workflow_dispatch == Some(iv));
                assert forall|k: Seq<char>| #[trigger] r.map_view().contains_key(k) == want.contains_key(k) by {
                    assert(ostr(r.get_spec(k)) == default_of(d.inputs.get_spec(k)));
                }
                assert forall|k: Seq<char>| r.map_view().contains_key(k) implies #[trigger] r.map_view()[k] == want[k] by {
                    assert(ostr(r.get_spec(k)) == default_of(d.inputs.get_spec(k)));
                }
                assert(r.map_view() =~= want);
                r
            },
        }
    }

    /// Whether the push branch filters exclude `git_ref` for event
    /// `event_name`; see [`branch_mismatch_spec`]. Tags and pushes without a
    /// branch filter are never excluded here.
    pub fn push_branch_filter_mismatch(&self, event_name: &str, git_ref: &str) -> (r: bool)
        ensures
            r == branch_mismatch_spec(self.sv(), event_name@, git_ref@),
    {
        if !str_eq(event_name, "push") {
            return false;
        }
        let push = match &self.push {
            Some(p) => p,
            None => return false,
        };
        let branch = match strip_prefix(git_ref, "refs/heads/") {
            Some(b) => b,
            None => return false,
        };
        if push.branches.len() == 0 && push.branches_ignore.len() == 0 {
            return false;
        }
        let included = push.branches.len() == 0 || any_pattern_matches(&push.branches, branch.as_str());
        let ignored = any_pattern_matches(&push.branches_ignore, branch.as_str());
        !included || ignored
    }
}

} // verus!
