//! Best-effort evaluation of job and step `if:` conditions against a mock run
//! context, so each job and step can be shown as running, skipped or unknown
//! without executing anything.
//!
//! The expression language covers the `github`, `matrix`, `needs`, `env`,
//! `vars` and `inputs` contexts, the string, JSON and file functions, boolean
//! operators and equality and ordered comparisons. What cannot be known
//! offline (secrets, files outside the repository) evaluates to unknown.

use vstd::prelude::*;

use crate::fetch::{first_index, lemma_first_index, lemma_first_index_unique, lemma_first_index_none, split_on,
    split_slash};
use crate::json::{json_compact, json_items, json_quoted, json_string_of, json_same, opt_view, parse_json_compact,
    json_string_contents, json_array_items, json_quote, json_equal};
use crate::number::{Num, SNum, Order3, display, display_spec, num_order, compare, is_zero, parse_num,
    parse_num_spec, wf_num, to_json_text, json_spec};
use crate::parser::{CompareOp, Expr, ValueExpr, SExpr, SValueExpr, args_sv, wf_expr, wf_value_expr, wf_args,
    lemma_args_sv, lemma_wf_args};
use crate::smap::{StrMap, StrSet, lex_lt, str_lt, str_eq, lemma_lex_total, lemma_lex_irreflexive,
    lemma_lex_asymmetric};
use crate::expr::{extract_expressions, extracted, open_delim};
use crate::findings::{Finding, FindingTarget, STarget, condition_skips, condition_unknown, is_condition_skip,
    is_condition_unknown};
use crate::ir::{JobInstance, Step, SupportTier, WorkflowFile};
use crate::triggers::defaults_spec;
use crate::matrix::contains_name;
use crate::lexer::{tokenize, tokens, token_views};
use crate::parser::{parse_tokens, parse_all};
use crate::smap::{value_map, lookup, lemma_lookup_some, lemma_lookup_index, strictly_sorted, lemma_lookup_insert};
use crate::text::{trim, trim_range, lemma_views_push, cat, cat3, chars_of, decimal, has_prefix, has_suffix, contains_seq, lower_seq, same_nocase, replace_all,
    join, views, owned, push_char, string_of_range, usize_to_string, to_lower, eq_ignore_case, starts_with,
    ends_with, contains_str, strip_prefix, replace_str, join_strings};

verus! {

broadcast use vstd::map_lib::lemma_submap_of_trans;

// ---------------------------------------------------------------------------
// The run context
// ---------------------------------------------------------------------------

/// The `github` context values that conditions can read.
#[derive(Debug)]
pub struct GithubCtx {
    pub sha: String,
    pub repository: String,
    pub actor: String,
}

/// What is known of an upstream job: its result and its outputs.
#[derive(Debug)]
pub struct NeedStatus {
    pub result: String,
    pub outputs: StrMap<String>,
}

/// Mock run context used to resolve `if:` conditions.
#[derive(Debug)]
pub struct EvalContext {
    pub event_name: String,
    pub ref_name: String,
    pub github: GithubCtx,
    pub env: StrMap<String>,
    pub vars: StrMap<String>,
    pub inputs: StrMap<String>,
    /// Names known to exist; values are never stored.
    pub secrets: StrSet,
    pub needs: StrMap<NeedStatus>,
    pub repo_root: Option<String>,
}

/// The view of a [`NeedStatus`].
pub struct SNeed {
    pub result: Seq<char>,
    pub outputs: Map<Seq<char>, Seq<char>>,
}

/// The view of an [`EvalContext`]: what evaluation reads of it.
pub struct SCtx {
    pub event_name: Seq<char>,
    pub ref_name: Seq<char>,
    pub sha: Seq<char>,
    pub repository: Seq<char>,
    pub actor: Seq<char>,
    pub env: Map<Seq<char>, Seq<char>>,
    pub vars: Map<Seq<char>, Seq<char>>,
    pub inputs: Map<Seq<char>, Seq<char>>,
    pub repo_root: Option<Seq<char>>,
}

impl NeedStatus {
    pub open spec fn sv(&self) -> SNeed {
        SNeed { result: self.result@, outputs: self.outputs.map_view() }
    }
}

impl Clone for NeedStatus {
    fn clone(&self) -> (r: Self)
        ensures
            r.sv() == self.sv(),
    {
        let r = NeedStatus { result: self.result.clone(), outputs: self.outputs.duplicate() };
        assert(r.outputs.map_view() =~= self.outputs.map_view());
        r
    }
}

/// The needs map as a mathematical map from job ids to need views.
pub open spec fn needs_view(m: StrMap<NeedStatus>) -> Map<Seq<char>, SNeed> {
    Map::new(|k: Seq<char>| m.get_spec(k) is Some, |k: Seq<char>| match m.get_spec(k) {
        Some(n) => n.sv(),
        None => SNeed { result: Seq::empty(), outputs: Map::empty() },
    })
}

impl EvalContext {
    pub open spec fn sv(&self) -> SCtx {
        SCtx {
            event_name: self.event_name@,
            ref_name: self.ref_name@,
            sha: self.github.sha@,
            repository: self.github.repository@,
            actor: self.github.actor@,
            env: self.env.map_view(),
            vars: self.vars.map_view(),
            inputs: self.inputs.map_view(),
            repo_root: opt_view(self.repo_root),
        }
    }

    /// A plausible default context: a plain `push` to `refs/heads/main` with
    /// no environment variables, inputs, secrets or upstream results.
    pub fn default_mock() -> (r: Self)
        ensures
            r.event_name@ == "push"@,
            r.ref_name@ == "refs/heads/main"@,
            r.github.sha@ == "0000000000000000000000000000000000000000"@,
            r.github.repository@ == "octo/repository"@,
            r.github.actor@ == "octocat"@,
            r.env@.len() == 0,
            r.vars@.len() == 0,
            r.inputs@.len() == 0,
            r.secrets@.len() == 0,
            r.needs@.len() == 0,
            r.repo_root is None,
    {
        EvalContext {
            event_name: owned("push"),
            ref_name: owned("refs/heads/main"),
            github: GithubCtx {
                sha: owned("0000000000000000000000000000000000000000"),
                repository: owned("octo/repository"),
                actor: owned("octocat"),
            },
            env: StrMap::new(),
            vars: StrMap::new(),
            inputs: StrMap::new(),
            secrets: StrSet::new(),
            needs: StrMap::new(),
            repo_root: None,
        }
    }
}

// ---------------------------------------------------------------------------
// Values
// ---------------------------------------------------------------------------

/// The outcome of evaluating a condition: definitely true, definitely false,
/// or outside what can be decided offline.
#[derive(Debug, Clone, Copy, PartialEq, Eq, Structural)]
pub enum EvalResult {
    True,
    False,
    Unknown,
}

/// A value of the expression language. A JSON value is held as the compact
/// text `serde_json` writes for it.
#[derive(Debug)]
pub enum Value {
    Str(String),
    Number(Num),
    Bool(bool),
    Json(String),
    Unknown,
}

/// The view of a [`Value`].
pub enum SValue {
    Str(Seq<char>),
    Number(SNum),
    Bool(bool),
    Json(Seq<char>),
    Unknown,
}

impl Value {
    pub open spec fn sv(&self) -> SValue {
        match self {
            Value::Str(s) => SValue::Str(s@),
            Value::Number(n) => SValue::Number(n.sv()),
            Value::Bool(b) => SValue::Bool(*b),
            Value::Json(t) => SValue::Json(t@),
            Value::Unknown => SValue::Unknown,
        }
    }
}

/// A number value is a well-formed number.
pub open spec fn wf_value(v: SValue) -> bool {
    v matches SValue::Number(n) ==> wf_num(n)
}

/// The views of a sequence of values.
pub open spec fn svals(v: Seq<Value>) -> Seq<SValue> {
    v.map_values(|x: Value| x.sv())
}

/// How `true` and `false` are written.
pub open spec fn bool_text(b: bool) -> Seq<char> {
    if b {
        "true"@
    } else {
        "false"@
    }
}

/// The text of a JSON value held as compact text `t`: the contents of a JSON
/// string, the compact text itself otherwise.
pub open spec fn json_text(t: Seq<char>) -> Seq<char> {
    match json_string_of(t) {
        Some(s) => s,
        None => t,
    }
}

/// A value as a string, when it has one (every value but unknown).
pub open spec fn value_text(v: SValue) -> Option<Seq<char>> {
    match v {
        SValue::Str(s) => Some(s),
        SValue::Number(n) => Some(display_spec(n)),
        SValue::Bool(b) => Some(bool_text(b)),
        SValue::Json(t) => Some(json_text(t)),
        SValue::Unknown => None,
    }
}

fn bool_string(b: bool) -> (s: String)
    ensures
        s@ == bool_text(b),
{
    if b {
        owned("true")
    } else {
        owned("false")
    }
}

fn json_text_of(t: &str) -> (s: String)
    ensures
        s@ == json_text(t@),
{
    match json_string_contents(t) {
        Some(s) => s,
        None => owned(t),
    }
}

/// The value as a string; see [`value_text`].
pub fn value_string(v: &Value) -> (r: Option<String>)
    requires
        wf_value(v.sv()),
    ensures
        opt_view(r) == value_text(v.sv()),
{
    match v {
        Value::Str(s) => Some(s.clone()),
        Value::Number(n) => Some(display(n)),
        Value::Bool(b) => Some(bool_string(*b)),
        Value::Json(t) => Some(json_text_of(t.as_str())),
        Value::Unknown => None,
    }
}

// ---------------------------------------------------------------------------
// Functions of the expression language
// ---------------------------------------------------------------------------

/// `contains(haystack, needle)`: on a JSON array, whether an element equals
/// the needle ignoring ASCII case; otherwise whether the haystack's text
/// contains the needle's, ignoring ASCII case.
pub open spec fn contains_spec(h: SValue, n: SValue) -> SValue {
    match value_text(n) {
        None => SValue::Unknown,
        Some(ns) => {
            let needle = lower_seq(ns);
            let arr = match h {
                SValue::Json(t) => json_items(t),
                _ => None,
            };
            match arr {
                Some(items) => SValue::Bool(some_item_matches(items, needle)),
                None => match value_text(h) {
                    Some(hs) => SValue::Bool(contains_seq(lower_seq(hs), needle)),
                    None => SValue::Unknown,
                },
            }
        },
    }
}

/// Some element (compact JSON text) has the text `needle`, ignoring ASCII
/// case.
pub open spec fn some_item_matches(items: Seq<Seq<char>>, needle: Seq<char>) -> bool {
    exists|i: int| 0 <= i < items.len() && #[trigger] same_nocase(json_text(items[i]), needle)
}

/// `startsWith(a, b)`, ignoring ASCII case.
pub open spec fn starts_spec(a: SValue, b: SValue) -> SValue {
    match (value_text(a), value_text(b)) {
        (Some(x), Some(y)) => SValue::Bool(has_prefix(lower_seq(x), lower_seq(y))),
        _ => SValue::Unknown,
    }
}

/// `endsWith(a, b)`, ignoring ASCII case.
pub open spec fn ends_spec(a: SValue, b: SValue) -> SValue {
    match (value_text(a), value_text(b)) {
        (Some(x), Some(y)) => SValue::Bool(has_suffix(lower_seq(x), lower_seq(y))),
        _ => SValue::Unknown,
    }
}

/// The placeholder `{i}` of `format`.
pub open spec fn placeholder(i: nat) -> Seq<char> {
    seq!['{'] + decimal(i) + seq!['}']
}

/// `format` from argument `i` on, with `out` the text so far: argument `i`
/// replaces every `{i-1}`.
pub open spec fn format_from(out: Seq<char>, vals: Seq<SValue>, i: int) -> SValue
    decreases vals.len() - i,
{
    if i < 1 || i >= vals.len() {
        SValue::Str(out)
    } else {
        match value_text(vals[i]) {
            None => SValue::Unknown,
            Some(v) => format_from(replace_all(out, placeholder((i - 1) as nat), v), vals, i + 1),
        }
    }
}

/// `format(fmt, args...)`.
pub open spec fn format_spec(vals: Seq<SValue>) -> SValue {
    match value_text(vals[0]) {
        None => SValue::Unknown,
        Some(f) => format_from(f, vals, 1),
    }
}

/// The elements of a value read as a JSON array: a JSON value or a string
/// holding JSON text.
pub open spec fn array_items(v: SValue) -> Option<Seq<Seq<char>>> {
    match v {
        SValue::Json(t) => json_items(t),
        SValue::Str(t) => json_items(t),
        _ => None,
    }
}

/// `join(array, separator)`.
pub open spec fn join_spec(arr: SValue, sep: SValue) -> SValue {
    match value_text(sep) {
        None => SValue::Unknown,
        Some(s) => match array_items(arr) {
            None => SValue::Unknown,
            Some(items) => SValue::Str(join(items.map_values(|t: Seq<char>| json_text(t)), s)),
        },
    }
}

/// `toJSON(value)`.
pub open spec fn to_json_spec(v: SValue) -> SValue {
    match v {
        SValue::Str(s) => SValue::Str(json_quoted(s)),
        SValue::Number(n) => SValue::Str(json_spec(n)),
        SValue::Bool(b) => SValue::Str(bool_text(b)),
        SValue::Json(t) => SValue::Str(t),
        SValue::Unknown => SValue::Unknown,
    }
}

/// `fromJSON(text)`.
pub open spec fn from_json_spec(v: SValue) -> SValue {
    match value_text(v) {
        None => SValue::Unknown,
        Some(s) => match json_compact(s) {
            Some(t) => SValue::Json(t),
            None => SValue::Unknown,
        },
    }
}

/// A `hashFiles` pattern that may not be used: an absolute path or one with a
/// `..` component.
pub open spec fn bad_pattern(p: Seq<char>) -> bool {
    (p.len() > 0 && p[0] == '/') || split_on(p, '/').contains(seq!['.', '.'])
}

/// The pattern argument cannot be used: unknown, or refused by
/// [`bad_pattern`].
pub open spec fn pattern_refused(v: SValue) -> bool {
    match value_text(v) {
        None => true,
        Some(p) => bad_pattern(p),
    }
}

/// The texts of the pattern arguments.
pub open spec fn pattern_texts(vals: Seq<SValue>) -> Seq<Seq<char>> {
    vals.map_values(|v: SValue| match value_text(v) {
        Some(p) => p,
        None => Seq::empty(),
    })
}

/// What hashing the files matching `patterns` under `root` gives: the hex
/// digest, or `None` when nothing matched or a file could not be read. It
/// depends on the file system, so evaluation is stated for every such
/// function that agrees with the hasher it was handed.
pub type HashSpec = spec_fn(Seq<char>, Seq<Seq<char>>) -> Option<Seq<char>>;

/// `hashFiles(patterns...)`: unknown without a repository root or with a
/// refused pattern; otherwise the hasher's digest, unknown when it has none.
pub open spec fn hash_spec(vals: Seq<SValue>, root: Option<Seq<char>>, h: HashSpec) -> SValue {
    match root {
        None => SValue::Unknown,
        Some(r) => if exists|i: int| 0 <= i < vals.len() && #[trigger] pattern_refused(vals[i]) {
            SValue::Unknown
        } else {
            match h(r, pattern_texts(vals)) {
                Some(d) => SValue::Str(d),
                None => SValue::Unknown,
            }
        },
    }
}

/// Every result the hasher `hf` can give agrees with `h`.
pub open spec fn hashes_as<H: Fn(String, Vec<String>) -> Option<String>>(hf: H, h: HashSpec) -> bool {
    forall|root: String, pats: Vec<String>, r: Option<String>| #[trigger] call_ensures(hf, (root, pats), r)
        ==> opt_view(r) == h(root@, views(pats@))
}

/// The hasher accepts every input.
pub open spec fn hasher_total<H: Fn(String, Vec<String>) -> Option<String>>(hf: H) -> bool {
    forall|root: String, pats: Vec<String>| #[trigger] call_requires(hf, (root, pats))
}

/// A function call of the expression language (name matched ignoring ASCII
/// case) on its evaluated arguments.
pub open spec fn call_spec(name: Seq<char>, vals: Seq<SValue>, root: Option<Seq<char>>, h: HashSpec) -> SValue {
    let n = lower_seq(name);
    if (n == "success"@ || n == "always"@) && vals.len() == 0 {
        SValue::Bool(true)
    } else if (n == "failure"@ || n == "cancelled"@) && vals.len() == 0 {
        SValue::Bool(false)
    } else if n == "contains"@ && vals.len() == 2 {
        contains_spec(vals[0], vals[1])
    } else if n == "startswith"@ && vals.len() == 2 {
        starts_spec(vals[0], vals[1])
    } else if n == "endswith"@ && vals.len() == 2 {
        ends_spec(vals[0], vals[1])
    } else if n == "format"@ && vals.len() > 0 {
        format_spec(vals)
    } else if n == "join"@ && vals.len() == 2 {
        join_spec(vals[0], vals[1])
    } else if n == "tojson"@ && vals.len() == 1 {
        to_json_spec(vals[0])
    } else if n == "fromjson"@ && vals.len() == 1 {
        from_json_spec(vals[0])
    } else if n == "hashfiles"@ && vals.len() > 0 {
        hash_spec(vals, root, h)
    } else {
        SValue::Unknown
    }
}

fn contains_value(haystack: &Value, needle: &Value) -> (r: Value)
    requires
        wf_value(haystack.sv()),
        wf_value(needle.sv()),
    ensures
        r.sv() == contains_spec(haystack.sv(), needle.sv()),
        wf_value(r.sv()),
{
    let ns = match value_string(needle) {
        Some(s) => s,
        None => return Value::Unknown,
    };
    let needle_l = to_lower(ns.as_str());
    if let Value::Json(t) = haystack {
        if let Some(items) = json_array_items(t.as_str()) {
            let ghost spec_items = json_items(t@)->0;
            let mut i: usize = 0;
            while i < items.len()
                invariant
                    i <= items@.len() == spec_items.len(),
                    json_items(t@) == Some(spec_items),
                    haystack.sv() == SValue::Json(t@),
                    value_text(needle.sv()) == Some(ns@),
                    needle_l@ == lower_seq(ns@),
                    forall|k: int| 0 <= k < items@.len() ==> (#[trigger] items@[k])@ == spec_items[k],
                    forall|k: int| 0 <= k < i ==> !#[trigger] same_nocase(json_text(spec_items[k]), needle_l@),
                decreases items.len() - i,
            {
                let it = json_text_of(items[i].as_str());
                assert(items@[i as int]@ == spec_items[i as int]);
                if eq_ignore_case(it.as_str(), needle_l.as_str()) {
                    assert(same_nocase(json_text(spec_items[i as int]), needle_l@));
                    assert(needle_l@ == lower_seq(value_text(needle.sv())->0));
                    assert(some_item_matches(spec_items, needle_l@));
                    return Value::Bool(true);
                }
                i += 1;
            }
            return Value::Bool(false);
        }
    }
    match value_string(haystack) {
        Some(hs) => {
            let hl = to_lower(hs.as_str());
            Value::Bool(contains_str(hl.as_str(), needle_l.as_str()))
        },
        None => Value::Unknown,
    }
}

fn starts_value(a: &Value, b: &Value) -> (r: Value)
    requires
        wf_value(a.sv()),
        wf_value(b.sv()),
    ensures
        r.sv() == starts_spec(a.sv(), b.sv()),
        wf_value(r.sv()),
{
    match (value_string(a), value_string(b)) {
        (Some(x), Some(y)) => Value::Bool(starts_with(to_lower(x.as_str()).as_str(), to_lower(y.as_str()).as_str())),
        _ => Value::Unknown,
    }
}

fn ends_value(a: &Value, b: &Value) -> (r: Value)
    requires
        wf_value(a.sv()),
        wf_value(b.sv()),
    ensures
        r.sv() == ends_spec(a.sv(), b.sv()),
        wf_value(r.sv()),
{
    match (value_string(a), value_string(b)) {
        (Some(x), Some(y)) => Value::Bool(ends_with(to_lower(x.as_str()).as_str(), to_lower(y.as_str()).as_str())),
        _ => Value::Unknown,
    }
}

fn placeholder_string(i: usize) -> (s: String)
    ensures
        s@ == placeholder(i as nat),
{
    let mut s = String::new();
    push_char(&mut s, '{');
    let d = usize_to_string(i);
    s.append(d.as_str());
    push_char(&mut s, '}');
    s
}

fn format_value(values: &Vec<Value>) -> (r: Value)
    requires
        values@.len() > 0,
        forall|k: int| 0 <= k < values@.len() ==> wf_value(#[trigger] values@[k].sv()),
    ensures
        r.sv() == format_spec(svals(values@)),
        wf_value(r.sv()),
{
    let ghost vals = svals(values@);
    let mut out = match value_string(&values[0]) {
        Some(s) => s,
        None => return Value::Unknown,
    };
    let mut i: usize = 1;
    while i < values.len()
        invariant
            1 <= i <= values@.len(),
            vals == svals(values@),
            forall|k: int| 0 <= k < values@.len() ==> wf_value(#[trigger] values@[k].sv()),
            format_spec(vals) == format_from(out@, vals, i as int),
        decreases values.len() - i,
    {
        let v = match value_string(&values[i]) {
            Some(s) => s,
            None => return Value::Unknown,
        };
        let ph = placeholder_string(i - 1);
        out = replace_str(out.as_str(), ph.as_str(), v.as_str());
        i += 1;
    }
    Value::Str(out)
}

fn join_value(array: &Value, separator: &Value) -> (r: Value)
    requires
        wf_value(array.sv()),
        wf_value(separator.sv()),
    ensures
        r.sv() == join_spec(array.sv(), separator.sv()),
        wf_value(r.sv()),
{
    let sep = match value_string(separator) {
        Some(s) => s,
        None => return Value::Unknown,
    };
    let items = match array {
        Value::Json(t) => json_array_items(t.as_str()),
        Value::Str(t) => json_array_items(t.as_str()),
        _ => return Value::Unknown,
    };
    let items = match items {
        Some(v) => v,
        None => return Value::Unknown,
    };
    let ghost spec_items = array_items(array.sv())->0;
    let mut texts: Vec<String> = Vec::new();
    let mut i: usize = 0;
    while i < items.len()
        invariant
            i <= items@.len() == spec_items.len(),
            forall|k: int| 0 <= k < items@.len() ==> (#[trigger] items@[k])@ == spec_items[k],
            texts@.len() == i,
            views(texts@) == spec_items.take(i as int).map_values(|t: Seq<char>| json_text(t)),
        decreases items.len() - i,
    {
        let t = json_text_of(items[i].as_str());
        let ghost before = texts@;
        texts.push(t);
        i += 1;
        proof {
            let want = spec_items.take(i as int).map_values(|t: Seq<char>| json_text(t));
            assert forall|k: int| 0 <= k < i implies #[trigger] views(texts@)[k] == want[k] by {
                if k < i - 1 {
                    assert(texts@[k] == before[k]);
                    assert(views(before)[k] == spec_items.take(i - 1).map_values(|t: Seq<char>| json_text(t))[k]);
                }
            }
            assert(views(texts@) =~= want);
        }
    }
    assert(spec_items.take(i as int) =~= spec_items);
    Value::Str(join_strings(texts.as_slice(), sep.as_str()))
}

fn to_json_value(v: &Value) -> (r: Value)
    requires
        wf_value(v.sv()),
    ensures
        r.sv() == to_json_spec(v.sv()),
        wf_value(r.sv()),
{
    match v {
        Value::Str(s) => Value::Str(json_quote(s.as_str())),
        Value::Number(n) => Value::Str(to_json_text(n)),
        Value::Bool(b) => Value::Str(bool_string(*b)),
        Value::Json(t) => Value::Str(t.clone()),
        Value::Unknown => Value::Unknown,
    }
}

fn from_json_value(v: &Value) -> (r: Value)
    requires
        wf_value(v.sv()),
    ensures
        r.sv() == from_json_spec(v.sv()),
        wf_value(r.sv()),
{
    let s = match value_string(v) {
        Some(s) => s,
        None => return Value::Unknown,
    };
    match parse_json_compact(s.as_str()) {
        Some(t) => Value::Json(t),
        None => Value::Unknown,
    }
}

/// Whether a `hashFiles` pattern is refused; see [`bad_pattern`].
pub fn refused_pattern(p: &str) -> (r: bool)
    ensures
        r == bad_pattern(p@),
{
    let v = chars_of(p);
    if v.len() > 0 && v[0] == '/' {
        return true;
    }
    let segs = split_slash(&v);
    let mut i: usize = 0;
    while i < segs.len()
        invariant
            i <= segs@.len() == split_on(v@, '/').len(),
            v@ == p@,
            !(v@.len() > 0 && v@[0] == '/'),
            forall|k: int| 0 <= k < segs@.len() ==> (#[trigger] segs@[k])@ == split_on(v@, '/')[k],
            forall|k: int| 0 <= k < i ==> split_on(v@, '/')[k] != seq!['.', '.'],
        decreases segs.len() - i,
    {
        let s = &segs[i];
        if s.len() == 2 && s[0] == '.' && s[1] == '.' {
            assert(split_on(v@, '/')[i as int] =~= seq!['.', '.']);
            return true;
        }
        assert(split_on(v@, '/')[i as int] != seq!['.', '.']) by {
            if split_on(v@, '/')[i as int] == seq!['.', '.'] {
                assert(s@ =~= seq!['.', '.']);
            }
        }
        i += 1;
    }
    false
}

/// The digests handed out so far, by (repository root, patterns).
pub type HashMemo = Map<(Seq<char>, Seq<Seq<char>>), Option<Seq<char>>>;

/// `h` gives every digest recorded in `m`.
pub open spec fn agrees(h: HashSpec, m: HashMemo) -> bool {
    forall|k: (Seq<char>, Seq<Seq<char>>)| #[trigger] m.dom().contains(k) ==> h(k.0, k.1) == m[k]
}

/// The hash function that gives the digests of `m` and nothing elsewhere.
pub open spec fn memo_hash(m: HashMemo) -> HashSpec {
    |r: Seq<char>, p: Seq<Seq<char>>| if m.dom().contains((r, p)) {
        m[(r, p)]
    } else {
        None
    }
}

spec fn entry_key(e: (String, Vec<String>, Option<String>)) -> (Seq<char>, Seq<Seq<char>>) {
    (e.0@, views(e.1@))
}

/// `hf` may give `d` for the repository root and patterns of `k`.
pub open spec fn may_hash<H: Fn(String, Vec<String>) -> Option<String>>(
    hf: H,
    k: (Seq<char>, Seq<Seq<char>>),
    d: Option<Seq<char>>,
) -> bool {
    exists|root: String, pats: Vec<String>, r: Option<String>|
        #[trigger] call_ensures(hf, (root, pats), r) && root@ == k.0 && views(pats@) == k.1 && opt_view(r) == d
}

/// The hasher of one evaluation with the digests it handed out, so that
/// `hashFiles` gives one digest per root and patterns throughout.
struct Hasher<'a, H: Fn(String, Vec<String>) -> Option<String>> {
    hf: &'a H,
    seen: Vec<(String, Vec<String>, Option<String>)>,
}

impl<'a, H: Fn(String, Vec<String>) -> Option<String>> View for Hasher<'a, H> {
    type V = HashMemo;

    closed spec fn view(&self) -> HashMemo {
        Map::new(
            |k: (Seq<char>, Seq<Seq<char>>)| exists|i: int| 0 <= i < self.seen@.len() && #[trigger] entry_key(self.seen@[i]) == k,
            |k: (Seq<char>, Seq<Seq<char>>)| opt_view(
                self.seen@[choose|i: int| 0 <= i < self.seen@.len() && #[trigger] entry_key(self.seen@[i]) == k].2,
            ),
        )
    }
}

impl<'a, H: Fn(String, Vec<String>) -> Option<String>> Hasher<'a, H> {
    #[verifier::type_invariant]
    closed spec fn inv(self) -> bool {
        &&& hasher_total(*self.hf)
        &&& forall|i: int, j: int| 0 <= i < j < self.seen@.len() ==> entry_key(#[trigger] self.seen@[i]) != entry_key(
            #[trigger] self.seen@[j])
        &&& forall|i: int| 0 <= i < self.seen@.len() ==> may_hash(*self.hf, entry_key(#[trigger] self.seen@[i]), opt_view(self.seen@[i].2))
    }

    closed spec fn hasher(self) -> H {
        *self.hf
    }

    fn new(hf: &'a H) -> (r: Self)
        requires
            hasher_total(*hf),
        ensures
            r@ == HashMemo::empty(),
            r.hasher() == *hf,
    {
        let r = Hasher { hf, seen: Vec::new() };
        assert(r@ =~= HashMemo::empty());
        r
    }
}

fn same_patterns(a: &Vec<String>, b: &Vec<String>) -> (r: bool)
    ensures
        r == (views(a@) == views(b@)),
{
    if a.len() != b.len() {
        proof {
            assert(views(a@).len() != views(b@).len());
        }
        return false;
    }
    let mut i: usize = 0;
    while i < a.len()
        invariant
            i <= a@.len(),
            a@.len() == b@.len(),
            forall|k: int| 0 <= k < i ==> a@[k]@ == b@[k]@,
        decreases a.len() - i,
    {
        if !str_eq(a[i].as_str(), b[i].as_str()) {
            proof {
                assert(views(a@)[i as int] != views(b@)[i as int]);
            }
            return false;
        }
        i += 1;
    }
    assert(views(a@) =~= views(b@));
    true
}

/// `hashFiles`: no repository root or a refused pattern gives `Unknown`;
/// otherwise the hasher's digest of the root and patterns, which `memo`
/// hands out again when they come back.
fn hash_files<H: Fn(String, Vec<String>) -> Option<String>>(values: &Vec<Value>, root: &Option<String>, memo: &mut Hasher<'_, H>) -> (r: Value)
    requires
        forall|k: int| 0 <= k < values@.len() ==> wf_value(#[trigger] values@[k].sv()),
    ensures
        old(memo)@.submap_of(final(memo)@),
        final(memo).hasher() == old(memo).hasher(),
        forall|fin: HashMemo, h: HashSpec| #[trigger] agrees(h, fin) && final(memo)@.submap_of(fin) ==> r.sv()
            == hash_spec(svals(values@), opt_view(*root), h),
        wf_value(r.sv()),
        r.sv() is Unknown || r.sv() is Str,
        root.is_none() ==> r.sv() == SValue::Unknown,
        (exists|i: int| 0 <= i < values@.len() && #[trigger] pattern_refused(svals(values@)[i])) ==> r.sv()
            == SValue::Unknown,
{
    proof {
        use_type_invariant(&*memo);
    }
    let ghost vals = svals(values@);
    let root_s = match root {
        Some(r) => r.clone(),
        None => return Value::Unknown,
    };
    let mut pats: Vec<String> = Vec::new();
    let mut i: usize = 0;
    while i < values.len()
        invariant
            i <= values@.len(),
            vals == svals(values@),
            forall|k: int| 0 <= k < values@.len() ==> wf_value(#[trigger] values@[k].sv()),
            forall|k: int| 0 <= k < i ==> !#[trigger] pattern_refused(vals[k]),
            pats@.len() == i,
            views(pats@) == pattern_texts(vals).take(i as int),
        decreases values.len() - i,
    {
        let p = match value_string(&values[i]) {
            Some(s) => s,
            None => {
                assert(pattern_refused(vals[i as int]));
                return Value::Unknown;
            },
        };
        if refused_pattern(p.as_str()) {
            assert(pattern_refused(vals[i as int]));
            return Value::Unknown;
        }
        let ghost before = pats@;
        pats.push(p);
        i += 1;
        proof {
            let want = pattern_texts(vals).take(i as int);
            assert forall|k: int| 0 <= k < i implies #[trigger] views(pats@)[k] == want[k] by {
                if k < i - 1 {
                    assert(pats@[k] == before[k]);
                    assert(views(before)[k] == pattern_texts(vals).take(i - 1)[k]);
                }
            }
            assert(views(pats@) =~= want);
        }
    }
    assert(pattern_texts(vals).take(i as int) =~= pattern_texts(vals));
    assert(!exists|k: int| 0 <= k < vals.len() && #[trigger] pattern_refused(vals[k]));
    let ghost key = (root_s@, views(pats@));
    let mut j: usize = 0;
    while j < memo.seen.len()
        invariant
            j <= memo.seen@.len(),
            forall|k: int| 0 <= k < j ==> entry_key(#[trigger] memo.seen@[k]) != key,
            key == (root_s@, views(pats@)),
            *memo == *old(memo),
            vals == svals(values@),
            root.is_some(),
            opt_view(*root) == Some(root_s@),
            views(pats@) == pattern_texts(vals),
            !exists|k: int| 0 <= k < vals.len() && #[trigger] pattern_refused(vals[k]),
        decreases memo.seen.len() - j,
    {
        if str_eq(memo.seen[j].0.as_str(), root_s.as_str()) && same_patterns(&memo.seen[j].1, &pats) {
            proof {
                use_type_invariant(&*memo);
                assert(entry_key(memo.seen@[j as int]) == key);
                assert(memo@.dom().contains(key));
                let c = choose|c: int| 0 <= c < memo.seen@.len() && #[trigger] entry_key(memo.seen@[c]) == key;
                assert(c == j);
                assert(memo@[key] == opt_view(memo.seen@[j as int].2));
            }
            let res = match &memo.seen[j].2 {
                Some(d) => Value::Str(d.clone()),
                None => Value::Unknown,
            };
            proof {
                assert(res.sv() == match memo@[key] { Some(d) => SValue::Str(d), None => SValue::Unknown });
                assert forall|fin: HashMemo, h: HashSpec| #[trigger] agrees(h, fin) && memo@.submap_of(fin) implies res.sv()
                    == hash_spec(svals(values@), opt_view(*root), h) by {
                    assert(fin.dom().contains(key));
                    assert(h(key.0, key.1) == fin[key]);
                }
            }
            return res;
        }
        j += 1;
    }
    let key_root = root_s.clone();
    let key_pats = crate::ir::copy_strings(&pats);
    let ghost call_root = root_s;
    let ghost call_pats = pats;
    let out = (memo.hf)(root_s, pats);
    let kept = crate::ir::copy_opt(&out);
    let ghost old_seen = memo.seen@;
    let ghost old_view = memo@;
    proof {
        assert(may_hash(*memo.hf, key, opt_view(out)));
        assert(!old_view.dom().contains(key));
    }
    let mut grown: Vec<(String, Vec<String>, Option<String>)> = Vec::new();
    std::mem::swap(&mut grown, &mut memo.seen);
    assert(grown@ == old_seen);
    grown.push((key_root, key_pats, kept));
    proof {
        assert(grown@ == old_seen.push((key_root, key_pats, kept)));
        assert(entry_key(grown@[old_seen.len() as int]) == key);
        assert(may_hash(*memo.hf, entry_key(grown@[old_seen.len() as int]), opt_view(grown@[old_seen.len() as int].2)));
    }
    memo.seen = grown;
    proof {
        assert(memo.seen@ == old_seen.push((key_root, key_pats, kept)));
        assert(entry_key(memo.seen@[old_seen.len() as int]) == key);
        assert forall|k: (Seq<char>, Seq<Seq<char>>)| #[trigger] old_view.dom().contains(k) implies memo@.dom().contains(k)
            && memo@[k] == old_view[k] by {
            let c = choose|c: int| 0 <= c < old_seen.len() && #[trigger] entry_key(old_seen[c]) == k;
            assert(entry_key(memo.seen@[c]) == k);
            let d = choose|d: int| 0 <= d < memo.seen@.len() && #[trigger] entry_key(memo.seen@[d]) == k;
            assert(d < old_seen.len());
            assert(d == c);
        }
        assert(memo@.dom().contains(key));
        let d = choose|d: int| 0 <= d < memo.seen@.len() && #[trigger] entry_key(memo.seen@[d]) == key;
        assert(d == old_seen.len());
        assert(memo@[key] == opt_view(out));
        assert forall|fin: HashMemo, h: HashSpec| #[trigger] agrees(h, fin) && memo@.submap_of(fin) implies h(key.0, key.1)
            == opt_view(out) by {
            assert(fin.dom().contains(key));
        }
    }
    match out {
        Some(d) => Value::Str(d),
        None => Value::Unknown,
    }
}

// ---------------------------------------------------------------------------
// Context lookups
// ---------------------------------------------------------------------------

/// What evaluation reads besides the expression: the run context, the current
/// instance's matrix values and the upstream jobs' results.
pub struct Scope {
    pub ctx: SCtx,
    pub matrix: Map<Seq<char>, Seq<char>>,
    pub needs: Map<Seq<char>, SNeed>,
}

/// The scope of an evaluation.
pub open spec fn scope_of(ctx: EvalContext, matrix: StrMap<String>, needs: StrMap<NeedStatus>) -> Scope {
    Scope { ctx: ctx.sv(), matrix: matrix.map_view(), needs: needs_view(needs) }
}

/// The value of `m` under the key that follows `prefix` in `path`.
pub open spec fn lookup_under(path: Seq<char>, prefix: Seq<char>, m: Map<Seq<char>, Seq<char>>) -> Option<Seq<char>> {
    let key = path.skip(prefix.len() as int);
    if has_prefix(path, prefix) && m.contains_key(key) {
        Some(m[key])
    } else {
        None
    }
}

/// `github.ref_name`: the ref without a `refs/heads/` or `refs/tags/` prefix.
pub open spec fn short_ref(r: Seq<char>) -> Seq<char> {
    if has_prefix(r, "refs/heads/"@) {
        r.skip("refs/heads/"@.len() as int)
    } else if has_prefix(r, "refs/tags/"@) {
        r.skip("refs/tags/"@.len() as int)
    } else {
        r
    }
}

/// `needs.<job>.result` (when not empty) or `needs.<job>.outputs.<name>`.
pub open spec fn need_path_spec(path: Seq<char>, needs: Map<Seq<char>, SNeed>) -> Option<Seq<char>> {
    let rest = path.skip("needs."@.len() as int);
    if !has_prefix(path, "needs."@) {
        None
    } else {
        match first_index(rest, '.') {
            None => None,
            Some(d) => {
                let job = rest.take(d);
                let field = rest.skip(d + 1);
                if !needs.contains_key(job) {
                    None
                } else if field == "result"@ {
                    if needs[job].result.len() > 0 {
                        Some(needs[job].result)
                    } else {
                        None
                    }
                } else {
                    lookup_under(field, "outputs."@, needs[job].outputs)
                }
            },
        }
    }
}

/// The value of a context path such as `github.ref` or `env.NAME`; secrets
/// and whatever is not set are unknown.
pub open spec fn path_spec(path: Seq<char>, sc: Scope) -> SValue {
    let c = sc.ctx;
    if path == "github.event_name"@ {
        SValue::Str(c.event_name)
    } else if path == "github.ref"@ {
        SValue::Str(c.ref_name)
    } else if path == "github.ref_name"@ {
        SValue::Str(short_ref(c.ref_name))
    } else if path == "github.sha"@ {
        SValue::Str(c.sha)
    } else if path == "github.repository"@ {
        SValue::Str(c.repository)
    } else if path == "github.actor"@ {
        SValue::Str(c.actor)
    } else if has_prefix(path, "secrets."@) {
        SValue::Unknown
    } else {
        match lookup_under(path, "env."@, c.env) {
            Some(v) => SValue::Str(v),
            None => match lookup_under(path, "vars."@, c.vars) {
                Some(v) => SValue::Str(v),
                None => match lookup_under(path, "inputs."@, c.inputs) {
                    Some(v) => SValue::Str(v),
                    None => match lookup_under(path, "matrix."@, sc.matrix) {
                        Some(v) => SValue::Str(v),
                        None => match need_path_spec(path, sc.needs) {
                            Some(v) => SValue::Str(v),
                            None => SValue::Unknown,
                        },
                    },
                },
            },
        }
    }
}

/// Law of context paths: a secret is always unknown offline; a set
/// environment variable or matrix value reads as its text; and
/// `github.ref_name` of a branch or tag ref is the name after `refs/heads/` or
/// `refs/tags/`.
pub proof fn lemma_context_paths(sc: Scope, name: Seq<char>)
    ensures
        path_spec("secrets."@ + name, sc) == SValue::Unknown,
        sc.ctx.env.contains_key(name) ==> path_spec("env."@ + name, sc) == SValue::Str(sc.ctx.env[name]),
        sc.matrix.contains_key(name) ==> path_spec("matrix."@ + name, sc) == SValue::Str(sc.matrix[name]),
        short_ref("refs/heads/"@ + name) == name,
        short_ref("refs/tags/"@ + name) == name,
{
    reveal_strlit("github.event_name");
    reveal_strlit("github.ref");
    reveal_strlit("github.ref_name");
    reveal_strlit("github.sha");
    reveal_strlit("github.repository");
    reveal_strlit("github.actor");
    reveal_strlit("secrets.");
    reveal_strlit("env.");
    reveal_strlit("vars.");
    reveal_strlit("inputs.");
    reveal_strlit("matrix.");
    reveal_strlit("refs/heads/");
    reveal_strlit("refs/tags/");
    let s = "secrets."@ + name;
    assert(s[0] == 's');
    assert(s.subrange(0, 8) =~= "secrets."@);
    let e = "env."@ + name;
    assert(e[0] == 'e');
    assert(e.subrange(0, 4) =~= "env."@);
    assert(e.skip(4) =~= name);
    let m = "matrix."@ + name;
    assert(m[0] == 'm');
    assert(m.subrange(0, 7) =~= "matrix."@);
    assert(m.skip(7) =~= name);
    let h = "refs/heads/"@ + name;
    assert(h.subrange(0, 11) =~= "refs/heads/"@);
    assert(h.skip(11) =~= name);
    let t = "refs/tags/"@ + name;
    assert(t.subrange(0, 10) =~= "refs/tags/"@);
    assert(t.skip(10) =~= name);
    assert(t[5] == 't');
}

fn lookup_prefixed(path: &str, prefix: &str, m: &StrMap<String>) -> (r: Option<String>)
    ensures
        opt_view(r) == lookup_under(path@, prefix@, m.map_view()),
{
    match strip_prefix(path, prefix) {
        Some(key) => match m.get(key.as_str()) {
            Some(v) => Some(v.clone()),
            None => None,
        },
        None => None,
    }
}

fn find_char(v: &Vec<char>, c: char) -> (r: Option<usize>)
    ensures
        match r {
            Some(i) => first_index(v@, c) == Some(i as int),
            None => first_index(v@, c) is None,
        },
{
    let mut i: usize = 0;
    while i < v.len()
        invariant
            i <= v.len(),
            forall|k: int| 0 <= k < i ==> v@[k] != c,
        decreases v.len() - i,
    {
        if v[i] == c {
            proof {
                lemma_first_index_unique(v@, c, i as int);
            }
            return Some(i);
        }
        i += 1;
    }
    proof {
        lemma_first_index_none(v@, c);
    }
    None
}

fn resolve_need_path(path: &str, needs: &StrMap<NeedStatus>) -> (r: Option<String>)
    ensures
        opt_view(r) == need_path_spec(path@, needs_view(*needs)),
{
    let rest = match strip_prefix(path, "needs.") {
        Some(r) => r,
        None => return None,
    };
    let v = chars_of(rest.as_str());
    let d = match find_char(&v, '.') {
        Some(d) => d,
        None => return None,
    };
    proof {
        lemma_first_index(v@, '.');
    }
    let job = string_of_range(&v, 0, d);
    let field = string_of_range(&v, d + 1, v.len());
    assert(job@ =~= rest@.take(d as int));
    assert(field@ =~= rest@.skip(d + 1));
    let need = match needs.get(job.as_str()) {
        Some(n) => n,
        None => return None,
    };
    if str_eq(field.as_str(), "result") {
        if need.result.as_str().is_empty() {
            None
        } else {
            Some(need.result.clone())
        }
    } else {
        lookup_prefixed(field.as_str(), "outputs.", &need.outputs)
    }
}

fn ref_short_name(r: &str) -> (s: String)
    ensures
        s@ == short_ref(r@),
{
    match strip_prefix(r, "refs/heads/") {
        Some(t) => t,
        None => match strip_prefix(r, "refs/tags/") {
            Some(t) => t,
            None => owned(r),
        },
    }
}

fn resolve_path(path: &str, ctx: &EvalContext, matrix: &StrMap<String>, needs: &StrMap<NeedStatus>) -> (r: Value)
    ensures
        r.sv() == path_spec(path@, scope_of(*ctx, *matrix, *needs)),
        wf_value(r.sv()),
{
    if str_eq(path, "github.event_name") {
        return Value::Str(ctx.event_name.clone());
    }
    if str_eq(path, "github.ref") {
        return Value::Str(ctx.ref_name.clone());
    }
    if str_eq(path, "github.ref_name") {
        return Value::Str(ref_short_name(ctx.ref_name.as_str()));
    }
    if str_eq(path, "github.sha") {
        return Value::Str(ctx.github.sha.clone());
    }
    if str_eq(path, "github.repository") {
        return Value::Str(ctx.github.repository.clone());
    }
    if str_eq(path, "github.actor") {
        return Value::Str(ctx.github.actor.clone());
    }
    if starts_with(path, "secrets.") {
        return Value::Unknown;
    }
    if let Some(v) = lookup_prefixed(path, "env.", &ctx.env) {
        return Value::Str(v);
    }
    if let Some(v) = lookup_prefixed(path, "vars.", &ctx.vars) {
        return Value::Str(v);
    }
    if let Some(v) = lookup_prefixed(path, "inputs.", &ctx.inputs) {
        return Value::Str(v);
    }
    if let Some(v) = lookup_prefixed(path, "matrix.", matrix) {
        return Value::Str(v);
    }
    match resolve_need_path(path, needs) {
        Some(v) => Value::Str(v),
        None => Value::Unknown,
    }
}

// ---------------------------------------------------------------------------
// Truth and comparison
// ---------------------------------------------------------------------------

/// The truth of a value: `false`, the empty string, zero and JSON `null` are
/// false; unknown stays unknown; everything else is true.
pub open spec fn truth_spec(v: SValue) -> EvalResult {
    match v {
        SValue::Bool(b) => if b {
            EvalResult::True
        } else {
            EvalResult::False
        },
        SValue::Str(s) => if s.len() == 0 {
            EvalResult::False
        } else {
            EvalResult::True
        },
        SValue::Number(n) => if n matches SNum::Finite { digits, .. } && digits.len() == 0 {
            EvalResult::False
        } else {
            EvalResult::True
        },
        SValue::Json(t) => if t == "null"@ {
            EvalResult::False
        } else {
            EvalResult::True
        },
        SValue::Unknown => EvalResult::Unknown,
    }
}

/// The truth of a value; see [`truth_spec`].
pub fn value_truth(v: &Value) -> (r: EvalResult)
    ensures
        r == truth_spec(v.sv()),
{
    match v {
        Value::Bool(b) => if *b {
            EvalResult::True
        } else {
            EvalResult::False
        },
        Value::Str(s) => if s.as_str().is_empty() {
            EvalResult::False
        } else {
            EvalResult::True
        },
        Value::Number(n) => if is_zero(n) {
            EvalResult::False
        } else {
            EvalResult::True
        },
        Value::Json(t) => if str_eq(t.as_str(), "null") {
            EvalResult::False
        } else {
            EvalResult::True
        },
        Value::Unknown => EvalResult::Unknown,
    }
}

/// A value read as a number, for the ordered comparisons: a number, or a
/// string that parses as one.
pub open spec fn coerce_spec(v: SValue) -> Option<SNum> {
    match v {
        SValue::Number(n) => Some(n),
        SValue::Str(s) => parse_num_spec(s),
        _ => None,
    }
}

/// The order of two strings (`String`'s `Ord`).
pub open spec fn str_order(a: Seq<char>, b: Seq<char>) -> Order3 {
    if a == b {
        Order3::Equal
    } else if lex_lt(a, b) {
        Order3::Less
    } else {
        Order3::Greater
    }
}

/// Whether an ordered comparison holds for an ordering (never when there is
/// no ordering).
pub open spec fn ordered_spec(op: CompareOp, o: Option<Order3>) -> bool {
    match o {
        None => false,
        Some(o) => match op {
            CompareOp::Lt => o == Order3::Less,
            CompareOp::Le => o != Order3::Greater,
            CompareOp::Gt => o == Order3::Greater,
            CompareOp::Ge => o != Order3::Less,
            _ => false,
        },
    }
}

/// Equality of two known values: numbers as numbers, booleans as booleans,
/// JSON values as JSON values, anything else by text ignoring ASCII case.
pub open spec fn values_equal(a: SValue, b: SValue) -> Option<bool> {
    match (a, b) {
        (SValue::Number(x), SValue::Number(y)) => Some(num_order(x, y) == Some(Order3::Equal)),
        (SValue::Bool(x), SValue::Bool(y)) => Some(x == y),
        (SValue::Json(x), SValue::Json(y)) => Some(json_same(x, y)),
        _ => match (value_text(a), value_text(b)) {
            (Some(x), Some(y)) => Some(same_nocase(x, y)),
            _ => None,
        },
    }
}

/// An ordered comparison of two known values: as numbers when both read as
/// numbers, otherwise by text.
pub open spec fn ordered_values(a: SValue, op: CompareOp, b: SValue) -> Option<bool> {
    match (coerce_spec(a), coerce_spec(b)) {
        (Some(x), Some(y)) => Some(ordered_spec(op, num_order(x, y))),
        _ => match (value_text(a), value_text(b)) {
            (Some(x), Some(y)) => Some(ordered_spec(op, Some(str_order(x, y)))),
            _ => None,
        },
    }
}

/// The comparison `l op r`: unknown when either side is.
pub open spec fn compare_spec(l: SValue, op: CompareOp, r: SValue) -> EvalResult {
    let m = if op == CompareOp::Eq {
        values_equal(l, r)
    } else if op == CompareOp::Ne {
        match values_equal(l, r) {
            Some(e) => Some(!e),
            None => None,
        }
    } else {
        ordered_values(l, op, r)
    };
    if l is Unknown || r is Unknown {
        EvalResult::Unknown
    } else {
        match m {
            Some(true) => EvalResult::True,
            Some(false) => EvalResult::False,
            None => EvalResult::Unknown,
        }
    }
}

/// Law: `l != r` is the negation of `l == r`. Where the equality is true the
/// inequality is false and the other way round, and either is unknown exactly
/// when the other is.
pub proof fn lemma_not_equal_negates(l: SValue, r: SValue)
    ensures
        compare_spec(l, CompareOp::Ne, r) == match compare_spec(l, CompareOp::Eq, r) {
            EvalResult::True => EvalResult::False,
            EvalResult::False => EvalResult::True,
            EvalResult::Unknown => EvalResult::Unknown,
        },
{
}

/// Law: two strings are equal under `==` exactly when they agree ignoring
/// ASCII case, and `!=` holds of them exactly when they do not.
pub proof fn lemma_string_comparison(a: Seq<char>, b: Seq<char>)
    ensures
        compare_spec(SValue::Str(a), CompareOp::Eq, SValue::Str(b))
            == (if same_nocase(a, b) { EvalResult::True } else { EvalResult::False }),
        compare_spec(SValue::Str(a), CompareOp::Ne, SValue::Str(b))
            == (if same_nocase(a, b) { EvalResult::False } else { EvalResult::True }),
{
}

/// Law of equality on numbers and booleans: two numbers are equal under `==`
/// exactly when they are equal as numbers, two booleans exactly when they
/// are the same.
pub proof fn lemma_typed_equality(x: SNum, y: SNum, p: bool, q: bool)
    ensures
        compare_spec(SValue::Number(x), CompareOp::Eq, SValue::Number(y))
            == (if num_order(x, y) == Some(Order3::Equal) { EvalResult::True } else { EvalResult::False }),
        compare_spec(SValue::Bool(p), CompareOp::Eq, SValue::Bool(q))
            == (if p == q { EvalResult::True } else { EvalResult::False }),
{
}

proof fn lemma_str_order_flip(a: Seq<char>, b: Seq<char>)
    ensures
        str_order(b, a) == crate::number::flip(str_order(a, b)),
{
    lemma_lex_total(a, b);
    if lex_lt(a, b) {
        crate::smap::lemma_lex_asymmetric(a, b);
    }
    if lex_lt(b, a) {
        crate::smap::lemma_lex_asymmetric(b, a);
    }
}

/// Law of the ordered comparisons: `l < r` has the outcome of `r > l`, and
/// `l <= r` that of `r >= l`.
pub proof fn lemma_ordered_swap(l: SValue, r: SValue)
    ensures
        compare_spec(l, CompareOp::Lt, r) == compare_spec(r, CompareOp::Gt, l),
        compare_spec(l, CompareOp::Le, r) == compare_spec(r, CompareOp::Ge, l),
{
    match (coerce_spec(l), coerce_spec(r)) {
        (Some(x), Some(y)) => {
            crate::number::lemma_num_order_flip(x, y);
        },
        _ => match (value_text(l), value_text(r)) {
            (Some(x), Some(y)) => {
                lemma_str_order_flip(x, y);
            },
            _ => {},
        },
    }
}

fn coerce_number(v: &Value) -> (r: Option<Num>)
    requires
        wf_value(v.sv()),
    ensures
        match r {
            Some(n) => coerce_spec(v.sv()) == Some(n.sv()) && wf_num(n.sv()),
            None => coerce_spec(v.sv()) is None,
        },
{
    match v {
        Value::Number(n) => Some(n.duplicate()),
        Value::Str(s) => parse_num(s.as_str()),
        _ => None,
    }
}

fn ordered(op: CompareOp, o: Option<Order3>) -> (r: bool)
    ensures
        r == ordered_spec(op, o),
{
    match o {
        None => false,
        Some(o) => match op {
            CompareOp::Lt => o == Order3::Less,
            CompareOp::Le => o != Order3::Greater,
            CompareOp::Gt => o == Order3::Greater,
            CompareOp::Ge => o != Order3::Less,
            _ => false,
        },
    }
}

fn string_order(a: &str, b: &str) -> (r: Order3)
    ensures
        r == str_order(a@, b@),
{
    if str_eq(a, b) {
        Order3::Equal
    } else if str_lt(a, b) {
        Order3::Less
    } else {
        Order3::Greater
    }
}

fn equal_values(a: &Value, b: &Value) -> (r: Option<bool>)
    requires
        wf_value(a.sv()),
        wf_value(b.sv()),
    ensures
        r == values_equal(a.sv(), b.sv()),
{
    match (a, b) {
        (Value::Number(x), Value::Number(y)) => Some(compare(x, y) == Some(Order3::Equal)),
        (Value::Bool(x), Value::Bool(y)) => Some(*x == *y),
        (Value::Json(x), Value::Json(y)) => Some(json_equal(x.as_str(), y.as_str())),
        _ => match (value_string(a), value_string(b)) {
            (Some(x), Some(y)) => Some(eq_ignore_case(x.as_str(), y.as_str())),
            _ => None,
        },
    }
}

fn ordered_compare(a: &Value, op: CompareOp, b: &Value) -> (r: Option<bool>)
    requires
        wf_value(a.sv()),
        wf_value(b.sv()),
    ensures
        r == ordered_values(a.sv(), op, b.sv()),
{
    match (coerce_number(a), coerce_number(b)) {
        (Some(x), Some(y)) => Some(ordered(op, compare(&x, &y))),
        _ => match (value_string(a), value_string(b)) {
            (Some(x), Some(y)) => Some(ordered(op, Some(string_order(x.as_str(), y.as_str())))),
            _ => None,
        },
    }
}

/// The comparison `lhs op rhs`; see [`compare_spec`].
pub fn compare_values(lhs: &Value, op: CompareOp, rhs: &Value) -> (r: EvalResult)
    requires
        wf_value(lhs.sv()),
        wf_value(rhs.sv()),
    ensures
        r == compare_spec(lhs.sv(), op, rhs.sv()),
{
    if matches!(lhs, Value::Unknown) || matches!(rhs, Value::Unknown) {
        return EvalResult::Unknown;
    }
    let m = match op {
        CompareOp::Eq => equal_values(lhs, rhs),
        CompareOp::Ne => match equal_values(lhs, rhs) {
            Some(e) => Some(!e),
            None => None,
        },
        _ => ordered_compare(lhs, op, rhs),
    };
    match m {
        Some(true) => EvalResult::True,
        Some(false) => EvalResult::False,
        None => EvalResult::Unknown,
    }
}

// ---------------------------------------------------------------------------
// Expressions
// ---------------------------------------------------------------------------

/// Boolean negation; unknown stays unknown.
pub open spec fn negate(r: EvalResult) -> EvalResult {
    match r {
        EvalResult::True => EvalResult::False,
        EvalResult::False => EvalResult::True,
        EvalResult::Unknown => EvalResult::Unknown,
    }
}

/// `&&` over three values: false if either side is false, true if both are
/// true, unknown otherwise.
pub open spec fn and_spec(l: EvalResult, r: EvalResult) -> EvalResult {
    if l == EvalResult::False || r == EvalResult::False {
        EvalResult::False
    } else if l == EvalResult::True && r == EvalResult::True {
        EvalResult::True
    } else {
        EvalResult::Unknown
    }
}

/// `||` over three values: true if either side is true, false if both are
/// false, unknown otherwise.
pub open spec fn or_spec(l: EvalResult, r: EvalResult) -> EvalResult {
    if l == EvalResult::True || r == EvalResult::True {
        EvalResult::True
    } else if l == EvalResult::False && r == EvalResult::False {
        EvalResult::False
    } else {
        EvalResult::Unknown
    }
}

/// A condition outcome as a value.
pub open spec fn result_value(r: EvalResult) -> SValue {
    match r {
        EvalResult::True => SValue::Bool(true),
        EvalResult::False => SValue::Bool(false),
        EvalResult::Unknown => SValue::Unknown,
    }
}

/// The outcome of a condition.
pub open spec fn expr_spec(e: SExpr, sc: Scope, h: HashSpec) -> EvalResult
    decreases e, 2int,
{
    match e {
        SExpr::Value(v) => truth_spec(value_spec(v, sc, h)),
        SExpr::Compare(l, op, r) => compare_spec(value_spec(l, sc, h), op, value_spec(r, sc, h)),
        SExpr::Not(x) => negate(expr_spec(*x, sc, h)),
        SExpr::And(a, b) => and_spec(expr_spec(*a, sc, h), expr_spec(*b, sc, h)),
        SExpr::Or(a, b) => or_spec(expr_spec(*a, sc, h), expr_spec(*b, sc, h)),
    }
}

/// Law of the connectives over three values: `!x` swaps true and false and
/// keeps unknown; `a && b` is false as soon as either side is false and true
/// only when both are; `a || b` is true as soon as either side is true and
/// false only when both are false. Each is unknown otherwise, and `&&` and
/// `||` give the same outcome with their sides swapped.
pub proof fn lemma_connectives(a: SExpr, b: SExpr, sc: Scope, h: HashSpec)
    ensures
        (expr_spec(SExpr::Not(Box::new(a)), sc, h) == EvalResult::True) == (expr_spec(a, sc, h) == EvalResult::False),
        (expr_spec(SExpr::Not(Box::new(a)), sc, h) == EvalResult::False) == (expr_spec(a, sc, h) == EvalResult::True),
        (expr_spec(SExpr::And(Box::new(a), Box::new(b)), sc, h) == EvalResult::False) == (expr_spec(a, sc, h)
            == EvalResult::False || expr_spec(b, sc, h) == EvalResult::False),
        (expr_spec(SExpr::And(Box::new(a), Box::new(b)), sc, h) == EvalResult::True) == (expr_spec(a, sc, h)
            == EvalResult::True && expr_spec(b, sc, h) == EvalResult::True),
        (expr_spec(SExpr::Or(Box::new(a), Box::new(b)), sc, h) == EvalResult::True) == (expr_spec(a, sc, h)
            == EvalResult::True || expr_spec(b, sc, h) == EvalResult::True),
        (expr_spec(SExpr::Or(Box::new(a), Box::new(b)), sc, h) == EvalResult::False) == (expr_spec(a, sc, h)
            == EvalResult::False && expr_spec(b, sc, h) == EvalResult::False),
        expr_spec(SExpr::And(Box::new(a), Box::new(b)), sc, h) == expr_spec(SExpr::And(Box::new(b), Box::new(a)), sc, h),
        expr_spec(SExpr::Or(Box::new(a), Box::new(b)), sc, h) == expr_spec(SExpr::Or(Box::new(b), Box::new(a)), sc, h),
{
}

/// An expression used as a function argument: a plain value stays a value,
/// anything else becomes its outcome as a boolean.
pub open spec fn expr_value_spec(e: SExpr, sc: Scope, h: HashSpec) -> SValue
    decreases e, 3int,
{
    match e {
        SExpr::Value(v) => value_spec(v, sc, h),
        _ => result_value(expr_spec(e, sc, h)),
    }
}

/// The value of an operand.
pub open spec fn value_spec(v: SValueExpr, sc: Scope, h: HashSpec) -> SValue
    decreases v, 1int,
{
    match v {
        SValueExpr::Str(s) => SValue::Str(s),
        SValueExpr::Number(n) => SValue::Number(n),
        SValueExpr::Bool(b) => SValue::Bool(b),
        SValueExpr::Path(p) => path_spec(p, sc),
        SValueExpr::Call(name, args) => call_spec(name, args_values(args, sc, h), sc.ctx.repo_root, h),
    }
}

/// The values of call arguments, in order.
pub open spec fn args_values(args: Seq<SExpr>, sc: Scope, h: HashSpec) -> Seq<SValue>
    decreases args, 0int,
{
    if args.len() == 0 {
        Seq::empty()
    } else {
        args_values(args.drop_last(), sc, h).push(expr_value_spec(args.last(), sc, h))
    }
}

fn eval_expr<H: Fn(String, Vec<String>) -> Option<String>>(
    e: &Expr,
    ctx: &EvalContext,
    matrix: &StrMap<String>,
    needs: &StrMap<NeedStatus>,
    memo: &mut Hasher<'_, H>,
) -> (r: EvalResult)
    requires
        wf_expr(e.sv()),
    ensures
        old(memo)@.submap_of(final(memo)@),
        final(memo).hasher() == old(memo).hasher(),
        forall|fin: HashMemo, h: HashSpec| #[trigger] agrees(h, fin) && final(memo)@.submap_of(fin) ==> r == expr_spec(e.sv(), scope_of(*ctx, *matrix, *needs), h),
    decreases e, 2int,
{
    match e {
        Expr::Value(v) => {
            let x = eval_value(v, ctx, matrix, needs, memo);
            value_truth(&x)
        },
        Expr::Compare(l, op, r) => {
            let a = eval_value(l, ctx, matrix, needs, memo);
            let b = eval_value(r, ctx, matrix, needs, memo);
            compare_values(&a, *op, &b)
        },
        Expr::Not(inner) => match eval_expr(inner, ctx, matrix, needs, memo) {
            EvalResult::True => EvalResult::False,
            EvalResult::False => EvalResult::True,
            EvalResult::Unknown => EvalResult::Unknown,
        },
        Expr::And(l, r) => {
            let a = eval_expr(l, ctx, matrix, needs, memo);
            if a == EvalResult::False {
                return EvalResult::False;
            }
            let b = eval_expr(r, ctx, matrix, needs, memo);
            if b == EvalResult::False {
                EvalResult::False
            } else if a == EvalResult::True && b == EvalResult::True {
                EvalResult::True
            } else {
                EvalResult::Unknown
            }
        },
        Expr::Or(l, r) => {
            let a = eval_expr(l, ctx, matrix, needs, memo);
            if a == EvalResult::True {
                return EvalResult::True;
            }
            let b = eval_expr(r, ctx, matrix, needs, memo);
            if b == EvalResult::True {
                EvalResult::True
            } else if a == EvalResult::False && b == EvalResult::False {
                EvalResult::False
            } else {
                EvalResult::Unknown
            }
        },
    }
}

fn eval_expr_value<H: Fn(String, Vec<String>) -> Option<String>>(
    e: &Expr,
    ctx: &EvalContext,
    matrix: &StrMap<String>,
    needs: &StrMap<NeedStatus>,
    memo: &mut Hasher<'_, H>,
) -> (r: Value)
    requires
        wf_expr(e.sv()),
    ensures
        old(memo)@.submap_of(final(memo)@),
        final(memo).hasher() == old(memo).hasher(),
        forall|fin: HashMemo, h: HashSpec| #[trigger] agrees(h, fin) && final(memo)@.submap_of(fin) ==> r.sv() == expr_value_spec(e.sv(), scope_of(*ctx, *matrix, *needs), h),
        wf_value(r.sv()),
    decreases e, 3int,
{
    match e {
        Expr::Value(v) => eval_value(v, ctx, matrix, needs, memo),
        _ => match eval_expr(e, ctx, matrix, needs, memo) {
            EvalResult::True => Value::Bool(true),
            EvalResult::False => Value::Bool(false),
            EvalResult::Unknown => Value::Unknown,
        },
    }
}

fn eval_value<H: Fn(String, Vec<String>) -> Option<String>>(
    v: &ValueExpr,
    ctx: &EvalContext,
    matrix: &StrMap<String>,
    needs: &StrMap<NeedStatus>,
    memo: &mut Hasher<'_, H>,
) -> (r: Value)
    requires
        wf_value_expr(v.sv()),
    ensures
        old(memo)@.submap_of(final(memo)@),
        final(memo).hasher() == old(memo).hasher(),
        forall|fin: HashMemo, h: HashSpec| #[trigger] agrees(h, fin) && final(memo)@.submap_of(fin) ==> r.sv() == value_spec(v.sv(), scope_of(*ctx, *matrix, *needs), h),
        wf_value(r.sv()),
    decreases v, 1int,
{
    match v {
        ValueExpr::String(s) => Value::Str(s.clone()),
        ValueExpr::Number(n) => Value::Number(n.duplicate()),
        ValueExpr::Bool(b) => Value::Bool(*b),
        ValueExpr::Path(p) => resolve_path(p.as_str(), ctx, matrix, needs),
        ValueExpr::Call(name, args) => eval_call(name, args, ctx, matrix, needs, memo),
    }
}

fn eval_call<H: Fn(String, Vec<String>) -> Option<String>>(
    name: &String,
    args: &Vec<Expr>,
    ctx: &EvalContext,
    matrix: &StrMap<String>,
    needs: &StrMap<NeedStatus>,
    memo: &mut Hasher<'_, H>,
) -> (r: Value)
    requires
        wf_args(args_sv(args@)),
    ensures
        old(memo)@.submap_of(final(memo)@),
        final(memo).hasher() == old(memo).hasher(),
        forall|fin: HashMemo, h: HashSpec| #[trigger] agrees(h, fin) && final(memo)@.submap_of(fin) ==> r.sv() == call_spec(name@,
            args_values(args_sv(args@), scope_of(*ctx, *matrix, *needs), h), ctx.sv().repo_root, h),
        wf_value(r.sv()),
    decreases args, 0int,
{
    let ghost sc = scope_of(*ctx, *matrix, *needs);
    proof {
        lemma_args_sv(args@);
        lemma_wf_args(args_sv(args@));
    }
    let mut values: Vec<Value> = Vec::new();
    let mut i: usize = 0;
    while i < args.len()
        invariant
            i <= args@.len(),
            sc == scope_of(*ctx, *matrix, *needs),
            old(memo)@.submap_of(memo@),
            memo.hasher() == old(memo).hasher(),
            args_sv(args@).len() == args@.len(),
            forall|k: int| 0 <= k < args@.len() ==> #[trigger] args_sv(args@)[k] == args@[k].sv(),
            forall|k: int| 0 <= k < args@.len() ==> #[trigger] wf_expr(args_sv(args@)[k]),
            values@.len() == i,
            forall|k: int| 0 <= k < i ==> wf_value(#[trigger] values@[k].sv()),
            forall|fin: HashMemo, h: HashSpec| #[trigger] agrees(h, fin) && memo@.submap_of(fin) ==> svals(values@) == args_values(
                args_sv(args@).take(i as int), sc, h),
        decreases args.len() - i,
    {
        proof {
            vstd::std_specs::vec::axiom_vec_index_decreases(*args, i as int);
            assert(wf_expr(args_sv(args@)[i as int]));
        }
        let x = eval_expr_value(&args[i], ctx, matrix, needs, memo);
        let ghost before = values@;
        values.push(x);
        proof {
            assert forall|fin: HashMemo, h: HashSpec| #[trigger] agrees(h, fin) && memo@.submap_of(fin) implies svals(values@) == args_values(
                args_sv(args@).take(i + 1), sc, h) by {
                let t = args_sv(args@).take(i + 1);
                assert(t.drop_last() =~= args_sv(args@).take(i as int));
                assert(t.last() == args@[i as int].sv());
                assert(svals(values@) =~= svals(before).push(x.sv()));
            }
        }
        i += 1;
    }
    assert(args_sv(args@).take(i as int) =~= args_sv(args@));
    let lname = to_lower(name.as_str());
    let n = values.len();
    if (str_eq(lname.as_str(), "success") || str_eq(lname.as_str(), "always")) && n == 0 {
        Value::Bool(true)
    } else if (str_eq(lname.as_str(), "failure") || str_eq(lname.as_str(), "cancelled")) && n == 0 {
        Value::Bool(false)
    } else if str_eq(lname.as_str(), "contains") && n == 2 {
        contains_value(&values[0], &values[1])
    } else if str_eq(lname.as_str(), "startswith") && n == 2 {
        starts_value(&values[0], &values[1])
    } else if str_eq(lname.as_str(), "endswith") && n == 2 {
        ends_value(&values[0], &values[1])
    } else if str_eq(lname.as_str(), "format") && n > 0 {
        format_value(&values)
    } else if str_eq(lname.as_str(), "join") && n == 2 {
        join_value(&values[0], &values[1])
    } else if str_eq(lname.as_str(), "tojson") && n == 1 {
        to_json_value(&values[0])
    } else if str_eq(lname.as_str(), "fromjson") && n == 1 {
        from_json_value(&values[0])
    } else if str_eq(lname.as_str(), "hashfiles") && n > 0 {
        hash_files(&values, &ctx.repo_root, memo)
    } else {
        Value::Unknown
    }
}

// ---------------------------------------------------------------------------
// Conditions
// ---------------------------------------------------------------------------

/// The expression of an `if:` field: the field trimmed, or, when it holds
/// `${{`, the first complete expression inside (none if there is none).
pub open spec fn expression_body_spec(raw: Seq<char>) -> Option<Seq<char>> {
    let t = trim(raw);
    if contains_seq(t, open_delim()) {
        let ex = extracted(t);
        if ex.len() > 0 {
            Some(ex[0])
        } else {
            None
        }
    } else {
        Some(t)
    }
}

/// The outcome of an expression's text: unknown when it does not tokenize or
/// parse as one whole expression.
pub open spec fn eval_text_spec(body: Seq<char>, sc: Scope, h: HashSpec) -> EvalResult {
    match tokens(body) {
        None => EvalResult::Unknown,
        Some(t) => match parse_all(t) {
            None => EvalResult::Unknown,
            Some(e) => expr_spec(e, sc, h),
        },
    }
}

/// The outcome of an `if:` field.
pub open spec fn condition_spec(raw: Seq<char>, sc: Scope, h: HashSpec) -> EvalResult {
    match expression_body_spec(raw) {
        None => EvalResult::Unknown,
        Some(b) => eval_text_spec(b, sc, h),
    }
}

fn expression_body(raw: &str) -> (r: Option<String>)
    ensures
        opt_view(r) == expression_body_spec(raw@),
{
    let v = chars_of(raw);
    let t = trim_range(&v, 0, v.len());
    assert(v@.subrange(0, v@.len() as int) =~= raw@);
    if contains_str(t.as_str(), "${{") {
        proof {
            reveal_strlit("${{");
            assert("${{"@ =~= open_delim());
        }
        let ex = extract_expressions(t.as_str());
        if ex.len() > 0 {
            assert(views(ex@)[0] == ex@[0]@);
            Some(ex[0].clone())
        } else {
            None
        }
    } else {
        proof {
            reveal_strlit("${{");
            assert("${{"@ =~= open_delim());
        }
        Some(t)
    }
}

fn eval_expression_str<H: Fn(String, Vec<String>) -> Option<String>>(
    body: &str,
    ctx: &EvalContext,
    matrix: &StrMap<String>,
    needs: &StrMap<NeedStatus>,
    memo: &mut Hasher<'_, H>,
) -> (r: EvalResult)
    requires
    ensures
        old(memo)@.submap_of(final(memo)@),
        final(memo).hasher() == old(memo).hasher(),
        forall|fin: HashMemo, h: HashSpec| #[trigger] agrees(h, fin) && final(memo)@.submap_of(fin) ==> r == eval_text_spec(body@, scope_of(*ctx, *matrix, *needs), h),
{
    let tokens = match tokenize(body) {
        Some(t) => t,
        None => return EvalResult::Unknown,
    };
    match parse_tokens(tokens) {
        Some(e) => eval_expr(&e, ctx, matrix, needs, memo),
        None => EvalResult::Unknown,
    }
}

/// The outcome of an `if:` field; see [`condition_spec`].
fn eval_condition<H: Fn(String, Vec<String>) -> Option<String>>(
    raw: &str,
    ctx: &EvalContext,
    matrix: &StrMap<String>,
    needs: &StrMap<NeedStatus>,
    memo: &mut Hasher<'_, H>,
) -> (r: EvalResult)
    requires
    ensures
        old(memo)@.submap_of(final(memo)@),
        final(memo).hasher() == old(memo).hasher(),
        forall|fin: HashMemo, h: HashSpec| #[trigger] agrees(h, fin) && final(memo)@.submap_of(fin) ==> r == condition_spec(raw@, scope_of(*ctx, *matrix, *needs), h),
{
    match expression_body(raw) {
        Some(body) => eval_expression_str(body.as_str(), ctx, matrix, needs, memo),
        None => EvalResult::Unknown,
    }
}

// ---------------------------------------------------------------------------
// Run states
// ---------------------------------------------------------------------------

/// Whether a job or step will run against the context.
#[derive(Debug, Clone, Copy, PartialEq, Eq, Structural)]
pub enum RunState {
    WillRun,
    Skipped,
    Unknown,
    Deferred,
}

/// A job whose own condition passed (or is absent) runs, unless an upstream
/// job's state is itself undecided.
pub open spec fn resolve_ran_spec(any_needed_unknown: bool) -> RunState {
    if any_needed_unknown {
        RunState::Unknown
    } else {
        RunState::WillRun
    }
}

fn resolve_ran(any_needed_unknown: bool) -> (r: RunState)
    ensures
        r == resolve_ran_spec(any_needed_unknown),
{
    if any_needed_unknown {
        RunState::Unknown
    } else {
        RunState::WillRun
    }
}

/// The result a needed job reports from the states of its instances: none
/// while any is undecided (or there are none), `skipped` when any was
/// skipped, `success` otherwise.
pub open spec fn aggregate_spec(states: Seq<RunState>) -> Option<Seq<char>> {
    if states.len() == 0 || exists|i: int| 0 <= i < states.len() && (#[trigger] states[i] == RunState::Unknown
        || states[i] == RunState::Deferred) {
        None
    } else if states.contains(RunState::Skipped) {
        Some("skipped"@)
    } else {
        Some("success"@)
    }
}

fn aggregate_need_result(states: &Vec<RunState>) -> (r: Option<&'static str>)
    ensures
        match r {
            Some(s) => aggregate_spec(states@) == Some(s@),
            None => aggregate_spec(states@) is None,
        },
{
    if states.len() == 0 {
        return None;
    }
    let mut skipped = false;
    let mut i: usize = 0;
    while i < states.len()
        invariant
            i <= states@.len(),
            forall|k: int| 0 <= k < i ==> !(#[trigger] states@[k] == RunState::Unknown || states@[k] == RunState::Deferred),
            skipped == exists|k: int| 0 <= k < i && #[trigger] states@[k] == RunState::Skipped,
        decreases states.len() - i,
    {
        let st = states[i];
        if st == RunState::Unknown || st == RunState::Deferred {
            assert(states@[i as int] == RunState::Unknown || states@[i as int] == RunState::Deferred);
            return None;
        }
        if st == RunState::Skipped {
            skipped = true;
        }
        i += 1;
    }
    if skipped {
        proof {
            let k = choose|k: int| 0 <= k < states@.len() && #[trigger] states@[k] == RunState::Skipped;
            assert(states@.contains(RunState::Skipped));
        }
        Some("skipped")
    } else {
        assert(!states@.contains(RunState::Skipped));
        Some("success")
    }
}

/// What a step's evaluation adds to the findings.
pub enum SFinding {
    Skip { target: STarget, raw: Seq<char> },
    Unknown { target: STarget },
}

/// `f` is the finding `s`.
pub open spec fn finding_is(f: Finding, s: SFinding) -> bool {
    match s {
        SFinding::Skip { target, raw } => is_condition_skip(f, target, raw),
        SFinding::Unknown { target } => is_condition_unknown(f, target),
    }
}

/// The findings `fs` are the findings `ss`, one for one.
pub open spec fn findings_are(fs: Seq<Finding>, ss: Seq<SFinding>) -> bool {
    fs.len() == ss.len() && forall|i: int| 0 <= i < fs.len() ==> #[trigger] finding_is(fs[i], ss[i])
}

proof fn lemma_findings_push(fs: Seq<Finding>, ss: Seq<SFinding>, f: Finding, s: SFinding)
    requires
        findings_are(fs, ss),
        finding_is(f, s),
    ensures
        findings_are(fs.push(f), ss.push(s)),
{
    assert forall|i: int| 0 <= i < fs.len() + 1 implies #[trigger] finding_is(fs.push(f)[i], ss.push(s)[i]) by {
        if i < fs.len() {
            assert(fs.push(f)[i] == fs[i]);
            assert(ss.push(s)[i] == ss[i]);
        }
    }
}

/// The state of a job or step with condition `cond` (if any) and support tier
/// `support`, once what it depends on allows it to run (`ran` is what it gets
/// when its condition passes), with the finding it raises.
pub open spec fn condition_outcome(cond: Option<Seq<char>>, sc: Scope, h: HashSpec, ran: RunState, target: STarget)
    -> (RunState, Seq<SFinding>) {
    match cond {
        None => (ran, Seq::empty()),
        Some(raw) => match condition_spec(raw, sc, h) {
            EvalResult::False => (RunState::Skipped, seq![SFinding::Skip { target, raw }]),
            EvalResult::Unknown => (RunState::Unknown, seq![SFinding::Unknown { target }]),
            EvalResult::True => (ran, Seq::empty()),
        },
    }
}

/// A step's state: a step never runs when its job does not or is deferred; a
/// deferred step is deferred; otherwise its condition can only narrow the
/// job's state.
pub open spec fn step_spec(job_state: RunState, step: Step, target: STarget, sc: Scope, h: HashSpec)
    -> (RunState, Seq<SFinding>) {
    if job_state == RunState::Skipped || job_state == RunState::Deferred {
        (job_state, Seq::empty())
    } else if step.support == SupportTier::Deferred {
        (RunState::Deferred, Seq::empty())
    } else {
        condition_outcome(ostr(step.condition), sc, h, job_state, target)
    }
}

/// An optional string taken by view.
pub open spec fn ostr(o: Option<String>) -> Option<Seq<char>> {
    opt_view(o)
}

fn eval_step<H: Fn(String, Vec<String>) -> Option<String>>(
    job_state: RunState,
    step: &Step,
    target: FindingTarget,
    ctx: &EvalContext,
    matrix: &StrMap<String>,
    needs: &StrMap<NeedStatus>,
    findings: &mut Vec<Finding>,
    memo: &mut Hasher<'_, H>,
) -> (r: RunState)
    requires
    ensures
        old(memo)@.submap_of(final(memo)@),
        final(memo).hasher() == old(memo).hasher(),
        final(findings)@.len() >= old(findings)@.len(),
        final(findings)@.subrange(0, old(findings)@.len() as int) == old(findings)@,
        findings_are(final(findings)@.subrange(old(findings)@.len() as int, final(findings)@.len() as int), sfindings(
            final(findings)@.subrange(old(findings)@.len() as int, final(findings)@.len() as int))),
        forall|fin: HashMemo, h: HashSpec| #[trigger] agrees(h, fin) && final(memo)@.submap_of(fin) ==> {
            let (st, fs) = step_spec(job_state, *step, target.tv(), scope_of(*ctx, *matrix, *needs), h);
            &&& r == st
            &&& findings_are(final(findings)@.subrange(old(findings)@.len() as int, final(findings)@.len() as int), fs)
        },
{
    let ghost n0 = findings@.len();
    proof {
        lemma_sfindings(Seq::<Finding>::empty(), Seq::<SFinding>::empty());
    }
    if job_state == RunState::Skipped || job_state == RunState::Deferred {
        assert(findings@.subrange(n0 as int, n0 as int) =~= Seq::<Finding>::empty());
        return job_state;
    }
    if step.support == SupportTier::Deferred {
        assert(findings@.subrange(n0 as int, n0 as int) =~= Seq::<Finding>::empty());
        return RunState::Deferred;
    }
    condition_result(&step.condition, job_state, target, ctx, matrix, needs, findings, memo)
}

/// The context with an instance's reusable-workflow inputs added (replacing
/// inputs of the same name).
pub open spec fn with_inputs_spec(c: SCtx, inputs: Map<Seq<char>, Seq<char>>) -> SCtx {
    SCtx { inputs: c.inputs.union_prefer_right(inputs), ..c }
}

impl Clone for GithubCtx {
    fn clone(&self) -> (r: Self)
        ensures
            r.sha@ == self.sha@,
            r.repository@ == self.repository@,
            r.actor@ == self.actor@,
    {
        GithubCtx { sha: self.sha.clone(), repository: self.repository.clone(), actor: self.actor.clone() }
    }
}

fn copy_needs(m: &StrMap<NeedStatus>) -> (r: StrMap<NeedStatus>)
    ensures
        needs_view(r) == needs_view(*m),
{
    let r = m.clone();
    let _ = m.len();
    let _ = r.len();
    proof {
        assert forall|k: Seq<char>| #[trigger] needs_view(r).contains_key(k) == needs_view(*m).contains_key(k) && (
        needs_view(r).contains_key(k) ==> needs_view(r)[k] == needs_view(*m)[k]) by {
            lemma_lookup_some(r@, k);
            lemma_lookup_some(m@, k);
            if r.get_spec(k) is Some {
                let i = choose|i: int| 0 <= i < r@.len() && r@[i].0 == k && r@[i].1 == r.get_spec(k)->0;
                lemma_lookup_index(m@, k, i);
                assert(cloned(m@[i].1, r@[i].1));
            }
            if m.get_spec(k) is Some {
                let i = choose|i: int| 0 <= i < m@.len() && m@[i].0 == k && m@[i].1 == m.get_spec(k)->0;
                assert(r@[i].0 == k);
                lemma_lookup_index(r@, k, i);
            }
        }
        assert(needs_view(r) =~= needs_view(*m));
    }
    r
}

fn context_with_inputs(ctx: &EvalContext, inputs: &StrMap<String>) -> (r: EvalContext)
    ensures
        r.sv() == with_inputs_spec(ctx.sv(), inputs.map_view()),
        needs_view(r.needs) == needs_view(ctx.needs),
{
    let mut merged_inputs = ctx.inputs.duplicate();
    merged_inputs.overlay(inputs);
    let r = EvalContext {
        event_name: ctx.event_name.clone(),
        ref_name: ctx.ref_name.clone(),
        github: ctx.github.clone(),
        env: ctx.env.duplicate(),
        vars: ctx.vars.duplicate(),
        inputs: merged_inputs,
        secrets: ctx.secrets.clone(),
        needs: copy_needs(&ctx.needs),
        repo_root: match &ctx.repo_root {
            Some(p) => Some(p.clone()),
            None => None,
        },
    };
    assert(r.inputs.map_view() =~= ctx.inputs.map_view().union_prefer_right(inputs.map_view())) by {
        assert forall|q: Seq<char>| #[trigger] r.inputs.map_view().contains_key(q)
            == ctx.inputs.map_view().union_prefer_right(inputs.map_view()).contains_key(q) by {
            let _ = r.inputs.get_spec(q);
        }
        assert forall|q: Seq<char>| r.inputs.map_view().contains_key(q) implies #[trigger] r.inputs.map_view()[q]
            == ctx.inputs.map_view().union_prefer_right(inputs.map_view())[q] by {
            let _ = r.inputs.get_spec(q);
        }
    }
    assert(r.env.map_view() =~= ctx.env.map_view());
    assert(r.vars.map_view() =~= ctx.vars.map_view());
    r
}

// ---------------------------------------------------------------------------
// Findings as a sequence of views
// ---------------------------------------------------------------------------

/// The condition findings `fs` stand for (when each is one).
pub open spec fn sfindings(fs: Seq<Finding>) -> Seq<SFinding> {
    choose|s: Seq<SFinding>| findings_are(fs, s)
}

proof fn lemma_finding_unique(f: Finding, a: SFinding, b: SFinding)
    requires
        finding_is(f, a),
        finding_is(f, b),
    ensures
        a == b,
{
    reveal_strlit("GHA_COND_SKIP");
    reveal_strlit("GHA_COND_UNKNOWN");
    match (a, b) {
        (SFinding::Skip { target: ta, raw: ra }, SFinding::Skip { target: tb, raw: rb }) => {
            let p = "Skipped by condition: "@;
            assert(ra =~= (p + ra).skip(p.len() as int));
            assert(rb =~= (p + rb).skip(p.len() as int));
        },
        (SFinding::Unknown { .. }, SFinding::Unknown { .. }) => {},
        (SFinding::Skip { .. }, SFinding::Unknown { .. }) => {
            assert("GHA_COND_SKIP"@.len() != "GHA_COND_UNKNOWN"@.len());
        },
        (SFinding::Unknown { .. }, SFinding::Skip { .. }) => {
            assert("GHA_COND_SKIP"@.len() != "GHA_COND_UNKNOWN"@.len());
        },
    }
}

proof fn lemma_sfindings(fs: Seq<Finding>, s: Seq<SFinding>)
    requires
        findings_are(fs, s),
    ensures
        sfindings(fs) == s,
{
    let t = sfindings(fs);
    assert(findings_are(fs, t));
    assert forall|i: int| 0 <= i < s.len() implies t[i] == s[i] by {
        lemma_finding_unique(fs[i], t[i], s[i]);
    }
    assert(t =~= s);
}

// ---------------------------------------------------------------------------
// Upstream results
// ---------------------------------------------------------------------------

/// The ids (in key order) of the instances expanded from base job `base`.
pub open spec fn ups_of(insts: Seq<(Seq<char>, JobInstance)>, base: Seq<char>) -> Seq<Seq<char>>
    decreases insts.len(),
{
    if insts.len() == 0 {
        Seq::empty()
    } else {
        let r = ups_of(insts.drop_last(), base);
        if insts.last().1.base_id@ == base {
            r.push(insts.last().0)
        } else {
            r
        }
    }
}

/// The states known for `ids`, in order; ids without one are skipped.
pub open spec fn known_states(ids: Seq<Seq<char>>, st: Map<Seq<char>, RunState>) -> Seq<RunState>
    decreases ids.len(),
{
    if ids.len() == 0 {
        Seq::empty()
    } else {
        let r = known_states(ids.drop_last(), st);
        if st.contains_key(ids.last()) {
            r.push(st[ids.last()])
        } else {
            r
        }
    }
}

/// The needs map with the result of every base job in `bases` that can be
/// decided from the states `st` recorded (outputs kept).
pub open spec fn resolved_needs_from(
    needs: Map<Seq<char>, SNeed>,
    bases: Seq<Seq<char>>,
    insts: Seq<(Seq<char>, JobInstance)>,
    st: Map<Seq<char>, RunState>,
) -> Map<Seq<char>, SNeed>
    decreases bases.len(),
{
    if bases.len() == 0 {
        needs
    } else {
        let m = resolved_needs_from(needs, bases.drop_last(), insts, st);
        let b = bases.last();
        match aggregate_spec(known_states(ups_of(insts, b), st)) {
            None => m,
            Some(res) => m.insert(b, SNeed {
                result: res,
                outputs: if m.contains_key(b) {
                    m[b].outputs
                } else {
                    Map::empty()
                },
            }),
        }
    }
}

fn upstream_ids(wf: &WorkflowFile, base: &str) -> (r: Vec<String>)
    ensures
        views(r@) == ups_of(wf.instances@, base@),
{
    let n = wf.instances.len();
    let mut r: Vec<String> = Vec::new();
    let mut i: usize = 0;
    assert(wf.instances@.take(0) =~= Seq::<(Seq<char>, JobInstance)>::empty());
    assert(views(r@) =~= Seq::<Seq<char>>::empty());
    while i < n
        invariant
            i <= n == wf.instances@.len(),
            views(r@) == ups_of(wf.instances@.take(i as int), base@),
        decreases n - i,
    {
        proof {
            assert(wf.instances@.take(i + 1).drop_last() =~= wf.instances@.take(i as int));
            assert(wf.instances@.take(i + 1).last() == wf.instances@[i as int]);
        }
        let inst = wf.instances.value_at(i);
        if str_eq(inst.base_id.as_str(), base) {
            let k = wf.instances.key_at(i).clone();
            let ghost before = r@;
            r.push(k);
            proof {
                lemma_views_push(before, k);
            }
        }
        i += 1;
    }
    assert(wf.instances@.take(i as int) =~= wf.instances@);
    r
}

fn states_of(ids: &Vec<String>, states: &StrMap<RunState>) -> (r: Vec<RunState>)
    ensures
        r@ == known_states(views(ids@), value_map(*states)),
{
    let mut r: Vec<RunState> = Vec::new();
    let mut i: usize = 0;
    assert(views(ids@).take(0) =~= Seq::<Seq<char>>::empty());
    while i < ids.len()
        invariant
            i <= ids@.len(),
            r@ == known_states(views(ids@).take(i as int), value_map(*states)),
        decreases ids.len() - i,
    {
        proof {
            assert(views(ids@).take(i + 1).drop_last() =~= views(ids@).take(i as int));
            assert(views(ids@).take(i + 1).last() == ids@[i as int]@);
        }
        match states.get(ids[i].as_str()) {
            Some(s) => {
                r.push(*s);
            },
            None => {},
        }
        i += 1;
    }
    assert(views(ids@).take(i as int) =~= views(ids@));
    r
}

proof fn lemma_needs_insert(before: StrMap<NeedStatus>, after: StrMap<NeedStatus>, k: Seq<char>, v: NeedStatus)
    requires
        forall|q: Seq<char>| #[trigger] after.get_spec(q) == if q == k {
            Some(v)
        } else {
            before.get_spec(q)
        },
    ensures
        needs_view(after) == needs_view(before).insert(k, v.sv()),
{
    assert forall|q: Seq<char>| #[trigger] needs_view(after).contains_key(q) == needs_view(before).insert(k, v.sv()).contains_key(q)
        by {
        let _ = after.get_spec(q);
    }
    assert forall|q: Seq<char>| needs_view(after).contains_key(q) implies #[trigger] needs_view(after)[q]
        == needs_view(before).insert(k, v.sv())[q] by {
        let _ = after.get_spec(q);
    }
    assert(needs_view(after) =~= needs_view(before).insert(k, v.sv()));
}

fn resolved_needs(inst: &JobInstance, wf: &WorkflowFile, ctx: &EvalContext, states: &StrMap<RunState>) -> (r: StrMap<NeedStatus>)
    ensures
        needs_view(r) == resolved_needs_from(needs_view(ctx.needs), views(inst.needs@), wf.instances@, value_map(*states)),
{
    let mut needs = copy_needs(&ctx.needs);
    let ghost bases = views(inst.needs@);
    let mut k: usize = 0;
    assert(bases.take(0) =~= Seq::<Seq<char>>::empty());
    while k < inst.needs.len()
        invariant
            k <= inst.needs@.len(),
            bases == views(inst.needs@),
            needs_view(needs) == resolved_needs_from(needs_view(ctx.needs), bases.take(k as int), wf.instances@,
                value_map(*states)),
        decreases inst.needs.len() - k,
    {
        proof {
            assert(bases.take(k + 1).drop_last() =~= bases.take(k as int));
            assert(bases.take(k + 1).last() == inst.needs@[k as int]@);
        }
        let base = &inst.needs[k];
        let ups = upstream_ids(wf, base.as_str());
        let ups_states = states_of(&ups, states);
        match aggregate_need_result(&ups_states) {
            Some(res) => {
                let ghost before = needs;
                let outputs = match needs.get(base.as_str()) {
                    Some(n) => n.outputs.duplicate(),
                    None => {
                        let e: StrMap<String> = StrMap::new();
                        assert(e.map_view() =~= Map::<Seq<char>, Seq<char>>::empty());
                        e
                    },
                };
                let v = NeedStatus { result: owned(res), outputs };
                let ghost vv = v;
                needs.insert(base.clone(), v);
                proof {
                    lemma_needs_insert(before, needs, base@, vv);
                    let m = needs_view(before);
                    let b = base@;
                    assert(aggregate_spec(known_states(ups_of(wf.instances@, b), value_map(*states))) == Some(res@));
                    assert(vv.sv().result == res@);
                    assert(vv.sv().outputs == if m.contains_key(b) { m[b].outputs } else { Map::empty() });
                    assert(resolved_needs_from(needs_view(ctx.needs), bases.take(k + 1), wf.instances@, value_map(*states))
                        == m.insert(b, vv.sv()));
                }
            },
            None => {
                proof {
                    assert(aggregate_spec(known_states(ups_of(wf.instances@, base@), value_map(*states))) is None);
                }
            },
        }
        k += 1;
    }
    assert(bases.take(k as int) =~= bases);
    needs
}

// ---------------------------------------------------------------------------
// Walking the instances
// ---------------------------------------------------------------------------

/// What the walk over a workflow's instances reads.
pub struct Env {
    pub insts: Seq<(Seq<char>, JobInstance)>,
    pub path: Seq<char>,
    pub ctx: SCtx,
    pub ctx_needs: Map<Seq<char>, SNeed>,
    pub h: HashSpec,
}

/// What the walk has produced so far: the states by id and the findings.
pub struct St {
    pub states: Map<Seq<char>, RunState>,
    pub findings: Seq<SFinding>,
}

pub open spec fn env_of(wf: WorkflowFile, ctx: EvalContext, h: HashSpec) -> Env {
    Env { insts: wf.instances@, path: wf.path@, ctx: ctx.sv(), ctx_needs: needs_view(ctx.needs), h }
}

/// The state of instance `id` once its upstream instances have been walked
/// (`skipped`: one of them was skipped; `unknown`: one is undecided or
/// missing), with the finding its condition raises: a deferred instance is
/// deferred, one with a skipped upstream instance is skipped, otherwise its
/// condition decides, against the context with its inputs, its matrix values
/// and the upstream results known in `st`.
pub open spec fn instance_state(env: Env, id: Seq<char>, inst: JobInstance, skipped: bool, unknown: bool,
    st: Map<Seq<char>, RunState>) -> (RunState, Seq<SFinding>) {
    if inst.support == SupportTier::Deferred {
        (RunState::Deferred, Seq::empty())
    } else if skipped {
        (RunState::Skipped, Seq::empty())
    } else {
        let needs = resolved_needs_from(env.ctx_needs, views(inst.needs@), env.insts, st);
        let sc = Scope { ctx: with_inputs_spec(env.ctx, inst.inputs.map_view()), matrix: inst.matrix.map_view(), needs };
        condition_outcome(ostr(inst.condition), sc, env.h, resolve_ran_spec(unknown), STarget::Job {
            file: env.path,
            job: id,
        })
    }
}

/// Resolve instance `id`: a recorded state is reused; an instance already
/// being resolved (a `needs` cycle) or missing is unknown; otherwise its
/// upstream instances are resolved first, in `needs` order, and its state is
/// recorded.
pub open spec fn walk(env: Env, id: Seq<char>, stack: Seq<Seq<char>>, st: St) -> (RunState, St)
    decreases env.insts.len() - stack.len(), 0int, 0int,
{
    if st.states.contains_key(id) {
        (st.states[id], st)
    } else if stack.contains(id) {
        (RunState::Unknown, st)
    } else {
        match lookup(env.insts, id) {
            None => (RunState::Unknown, st),
            Some(inst) => if stack.len() >= env.insts.len() {
                (RunState::Unknown, st)
            } else {
                let (flags, st2) = walk_needs(env, views(inst.needs@), 0, stack.push(id), st, (false, false));
                let (s, fs) = instance_state(env, id, inst, flags.0, flags.1, st2.states);
                (s, St { states: st2.states.insert(id, s), findings: st2.findings + fs })
            },
        }
    }
}

/// The upstream instances of `needs[k..]`, each base job's instances in
/// order; a base job with no instance counts as undecided.
pub open spec fn walk_needs(env: Env, needs: Seq<Seq<char>>, k: int, stack: Seq<Seq<char>>, st: St, flags: (bool, bool))
    -> ((bool, bool), St)
    decreases env.insts.len() - stack.len(), 2int, needs.len() - k,
{
    if k < 0 || k >= needs.len() {
        (flags, st)
    } else {
        let ups = ups_of(env.insts, needs[k]);
        if ups.len() == 0 {
            walk_needs(env, needs, k + 1, stack, st, (flags.0, true))
        } else {
            let (f2, st2) = walk_ups(env, ups, 0, stack, st, flags);
            walk_needs(env, needs, k + 1, stack, st2, f2)
        }
    }
}

/// The instances `ups[j..]` resolved in order, noting a skipped or undecided
/// one.
pub open spec fn walk_ups(env: Env, ups: Seq<Seq<char>>, j: int, stack: Seq<Seq<char>>, st: St, flags: (bool, bool))
    -> ((bool, bool), St)
    decreases env.insts.len() - stack.len(), 1int, ups.len() - j,
{
    if j < 0 || j >= ups.len() {
        (flags, st)
    } else {
        let (s, st2) = walk(env, ups[j], stack, st);
        let f2 = match s {
            RunState::Skipped => (true, flags.1),
            RunState::Unknown => (flags.0, true),
            RunState::Deferred => (flags.0, true),
            RunState::WillRun => flags,
        };
        walk_ups(env, ups, j + 1, stack, st2, f2)
    }
}

/// The walk's state as the exec state shows it.
pub open spec fn st_of(states: StrMap<RunState>, findings: Seq<Finding>) -> St {
    St { states: value_map(states), findings: sfindings(findings) }
}

/// The stack holds distinct instance ids.
pub open spec fn stack_ok(stack: Seq<Seq<char>>, insts: Seq<(Seq<char>, JobInstance)>) -> bool {
    &&& stack.no_duplicates()
    &&& forall|i: int| 0 <= i < stack.len() ==> #[trigger] lookup(insts, stack[i]) is Some
}

proof fn lemma_stack_bound(stack: Seq<Seq<char>>, insts: Seq<(Seq<char>, JobInstance)>, id: Seq<char>)
    requires
        stack_ok(stack, insts),
        strictly_sorted(insts),
        lookup(insts, id) is Some,
        !stack.contains(id),
    ensures
        stack.len() < insts.len(),
        stack_ok(stack.push(id), insts),
{
    let keys = insts.map_values(|e: (Seq<char>, JobInstance)| e.0);
    let s2 = stack.push(id);
    assert forall|i: int, j: int| 0 <= i < s2.len() && 0 <= j < s2.len() && i != j implies s2[i] != s2[j] by {
        if i < stack.len() && j < stack.len() {
        } else if i == stack.len() {
            assert(s2[j] == stack[j]);
            assert(stack.contains(stack[j]));
        } else {
            assert(s2[i] == stack[i]);
            assert(stack.contains(stack[i]));
        }
    }
    assert(s2.no_duplicates());
    assert forall|i: int| 0 <= i < s2.len() implies #[trigger] lookup(insts, s2[i]) is Some by {
        if i < stack.len() {
            assert(s2[i] == stack[i]);
        }
    }
    assert forall|x: Seq<char>| s2.to_set().contains(x) implies keys.to_set().contains(x) by {
        assert(s2.contains(x));
        let i = choose|i: int| 0 <= i < s2.len() && s2[i] == x;
        assert(lookup(insts, s2[i]) is Some);
        lemma_lookup_some(insts, x);
        let j = choose|j: int| 0 <= j < insts.len() && insts[j].0 == x && insts[j].1 == lookup(insts, x)->0;
        assert(keys[j] == x);
        assert(keys.contains(x));
    }
    s2.unique_seq_to_set();
    keys.lemma_cardinality_of_set();
    vstd::set_lib::lemma_len_subset(s2.to_set(), keys.to_set());
}

proof fn lemma_findings_concat(a: Seq<Finding>, sa: Seq<SFinding>, b: Seq<Finding>, sb: Seq<SFinding>)
    requires
        findings_are(a, sa),
        findings_are(b, sb),
    ensures
        findings_are(a + b, sa + sb),
{
    assert forall|i: int| 0 <= i < a.len() + b.len() implies #[trigger] finding_is((a + b)[i], (sa + sb)[i]) by {
        if i < a.len() {
            assert((a + b)[i] == a[i]);
            assert((sa + sb)[i] == sa[i]);
        } else {
            assert((a + b)[i] == b[i - a.len()]);
            assert((sa + sb)[i] == sb[i - a.len()]);
        }
    }
}

/// After appending findings `fs` (as views) to findings that are condition
/// findings, the whole is their views followed by `fs`.
proof fn lemma_appended(old_f: Seq<Finding>, new_f: Seq<Finding>, fs: Seq<SFinding>)
    requires
        findings_are(old_f, sfindings(old_f)),
        new_f.len() >= old_f.len(),
        new_f.subrange(0, old_f.len() as int) == old_f,
        findings_are(new_f.subrange(old_f.len() as int, new_f.len() as int), fs),
    ensures
        findings_are(new_f, sfindings(old_f) + fs),
        sfindings(new_f) == sfindings(old_f) + fs,
        findings_are(new_f, sfindings(new_f)),
{
    lemma_findings_concat(old_f, sfindings(old_f), new_f.subrange(old_f.len() as int, new_f.len() as int), fs);
    assert(old_f + new_f.subrange(old_f.len() as int, new_f.len() as int) =~= new_f);
    lemma_sfindings(new_f, sfindings(old_f) + fs);
}

fn condition_result<H: Fn(String, Vec<String>) -> Option<String>>(
    cond: &Option<String>,
    ran: RunState,
    target: FindingTarget,
    ctx: &EvalContext,
    matrix: &StrMap<String>,
    needs: &StrMap<NeedStatus>,
    findings: &mut Vec<Finding>,
    memo: &mut Hasher<'_, H>,
) -> (r: RunState)
    requires
    ensures
        old(memo)@.submap_of(final(memo)@),
        final(memo).hasher() == old(memo).hasher(),
        final(findings)@.len() >= old(findings)@.len(),
        final(findings)@.subrange(0, old(findings)@.len() as int) == old(findings)@,
        findings_are(final(findings)@.subrange(old(findings)@.len() as int, final(findings)@.len() as int), sfindings(
            final(findings)@.subrange(old(findings)@.len() as int, final(findings)@.len() as int))),
        forall|fin: HashMemo, h: HashSpec| #[trigger] agrees(h, fin) && final(memo)@.submap_of(fin) ==> {
            let (st, fs) = condition_outcome(ostr(*cond), scope_of(*ctx, *matrix, *needs), h, ran, target.tv());
            &&& r == st
            &&& findings_are(final(findings)@.subrange(old(findings)@.len() as int, final(findings)@.len() as int), fs)
        },
{
    let ghost n0 = findings@.len();
    let ghost tv = target.tv();
    match cond {
        None => {
            assert(findings@.subrange(n0 as int, n0 as int) =~= Seq::<Finding>::empty());
            proof {
                lemma_sfindings(Seq::<Finding>::empty(), Seq::<SFinding>::empty());
            }
            ran
        },
        Some(raw) => {
            let outcome = eval_condition(raw.as_str(), ctx, matrix, needs, memo);
            match outcome {
                EvalResult::False => {
                    let f = condition_skips(target, raw.as_str());
                    findings.push(f);
                    proof {
                        lemma_findings_push(Seq::empty(), Seq::empty(), f, SFinding::Skip { target: tv, raw: raw@ });
                        assert(findings@.subrange(n0 as int, findings@.len() as int) =~= seq![f]);
                        assert(findings@.subrange(0, n0 as int) =~= old(findings)@);
                        assert(seq![f] =~= Seq::<Finding>::empty().push(f));
                        lemma_sfindings(seq![f], seq![SFinding::Skip { target: tv, raw: raw@ }]);
                    }
                    RunState::Skipped
                },
                EvalResult::Unknown => {
                    let f = condition_unknown(target);
                    findings.push(f);
                    proof {
                        lemma_findings_push(Seq::empty(), Seq::empty(), f, SFinding::Unknown { target: tv });
                        assert(findings@.subrange(n0 as int, findings@.len() as int) =~= seq![f]);
                        assert(findings@.subrange(0, n0 as int) =~= old(findings)@);
                        assert(seq![f] =~= Seq::<Finding>::empty().push(f));
                        lemma_sfindings(seq![f], seq![SFinding::Unknown { target: tv }]);
                    }
                    RunState::Unknown
                },
                EvalResult::True => {
                    assert(findings@.subrange(n0 as int, n0 as int) =~= Seq::<Finding>::empty());
                    proof {
                        lemma_sfindings(Seq::<Finding>::empty(), Seq::<SFinding>::empty());
                    }
                    ran
                },
            }
        },
    }
}

fn decide<H: Fn(String, Vec<String>) -> Option<String>>(
    id: &str,
    inst: &JobInstance,
    wf: &WorkflowFile,
    ctx: &EvalContext,
    states: &StrMap<RunState>,
    findings: &mut Vec<Finding>,
    skipped: bool,
    unknown: bool,
    memo: &mut Hasher<'_, H>,
) -> (r: RunState)
    requires
    ensures
        old(memo)@.submap_of(final(memo)@),
        final(memo).hasher() == old(memo).hasher(),
        final(findings)@.len() >= old(findings)@.len(),
        final(findings)@.subrange(0, old(findings)@.len() as int) == old(findings)@,
        findings_are(final(findings)@.subrange(old(findings)@.len() as int, final(findings)@.len() as int), sfindings(
            final(findings)@.subrange(old(findings)@.len() as int, final(findings)@.len() as int))),
        forall|fin: HashMemo, h: HashSpec| #[trigger] agrees(h, fin) && final(memo)@.submap_of(fin) ==> {
            let (st, fs) = instance_state(env_of(*wf, *ctx, h), id@, *inst, skipped, unknown, value_map(*states));
            &&& r == st
            &&& findings_are(final(findings)@.subrange(old(findings)@.len() as int, final(findings)@.len() as int), fs)
        },
{
    let ghost n0 = findings@.len();
    proof {
        lemma_sfindings(Seq::<Finding>::empty(), Seq::<SFinding>::empty());
    }
    if inst.support == SupportTier::Deferred {
        assert(findings@.subrange(n0 as int, n0 as int) =~= Seq::<Finding>::empty());
        return RunState::Deferred;
    }
    if skipped {
        assert(findings@.subrange(n0 as int, n0 as int) =~= Seq::<Finding>::empty());
        return RunState::Skipped;
    }
    let needs = resolved_needs(inst, wf, ctx, states);
    let ictx = context_with_inputs(ctx, &inst.inputs);
    let target = FindingTarget::Job { file: wf.path.clone(), job: owned(id) };
    let ran = resolve_ran(unknown);
    condition_result(&inst.condition, ran, target, &ictx, &inst.matrix, &needs, findings, memo)
}

proof fn lemma_value_map_insert<V>(before: StrMap<V>, after: StrMap<V>, k: Seq<char>, v: V)
    requires
        forall|q: Seq<char>| #[trigger] after.get_spec(q) == if q == k {
            Some(v)
        } else {
            before.get_spec(q)
        },
    ensures
        value_map(after) == value_map(before).insert(k, v),
{
    assert forall|q: Seq<char>| #[trigger] value_map(after).contains_key(q) == value_map(before).insert(k, v).contains_key(q)
        by {
        let _ = after.get_spec(q);
    }
    assert forall|q: Seq<char>| value_map(after).contains_key(q) implies #[trigger] value_map(after)[q] == value_map(
        before).insert(k, v)[q] by {
        let _ = after.get_spec(q);
    }
    assert(value_map(after) =~= value_map(before).insert(k, v));
}

fn eval_instance<H: Fn(String, Vec<String>) -> Option<String>>(
    id: &str,
    wf: &WorkflowFile,
    ctx: &EvalContext,
    states: &mut StrMap<RunState>,
    stack: &mut Vec<String>,
    findings: &mut Vec<Finding>,
    memo: &mut Hasher<'_, H>,
) -> (r: RunState)
    requires
        stack_ok(views(old(stack)@), wf.instances@),
        findings_are(old(findings)@, sfindings(old(findings)@)),
    ensures
        old(memo)@.submap_of(final(memo)@),
        final(memo).hasher() == old(memo).hasher(),
        final(stack)@ == old(stack)@,
        findings_are(final(findings)@, sfindings(final(findings)@)),
        forall|fin: HashMemo, h: HashSpec| #[trigger] agrees(h, fin) && final(memo)@.submap_of(fin) ==> walk(env_of(*wf, *ctx, h), id@, views(old(stack)@), st_of(
            *old(states), old(findings)@)) == (r, st_of(*final(states), final(findings)@)),
    decreases wf.instances@.len() - old(stack)@.len(), 0int, 0int,
{
    let ghost stk0 = views(stack@);
    let ghost st0 = st_of(*states, findings@);
    if let Some(s) = states.get(id) {
        return *s;
    }
    if contains_name(stack, id) {
        return RunState::Unknown;
    }
    let inst = match wf.instances.get(id) {
        Some(i) => i,
        None => return RunState::Unknown,
    };
    let _ = wf.instances.len();
    proof {
        lemma_stack_bound(stk0, wf.instances@, id@);
    }
    let ghost stk = stk0.push(id@);
    let ghost ins = *inst;
    let ghost nv = views(inst.needs@);
    let name = owned(id);
    let ghost before_push = stack@;
    stack.push(name);
    proof {
        lemma_views_push(before_push, name);
    }
    let mut skipped = false;
    let mut unknown = false;
    let mut k: usize = 0;
    while k < inst.needs.len()
        invariant
            k <= inst.needs@.len(),
            nv == views(inst.needs@),
            old(memo)@.submap_of(memo@),
            memo.hasher() == old(memo).hasher(),
            stack@ == old(stack)@.push(name),
            views(stack@) == stk,
            stk == stk0.push(id@),
            stack_ok(stk, wf.instances@),
            stk0 == views(old(stack)@),
            stk.len() <= wf.instances@.len(),
            findings_are(findings@, sfindings(findings@)),
            forall|fin: HashMemo, h: HashSpec| #[trigger] agrees(h, fin) && memo@.submap_of(fin) ==> walk_needs(env_of(*wf, *ctx, h), nv, 0, stk, st0, (
                false, false)) == walk_needs(env_of(*wf, *ctx, h), nv, k as int, stk, st_of(*states, findings@), (
                skipped, unknown)),
        decreases inst.needs.len() - k,
    {
        let ups = upstream_ids(wf, inst.needs[k].as_str());
        let ghost uv = views(ups@);
        assert(nv[k as int] == inst.needs@[k as int]@);
        if ups.len() == 0 {
            unknown = true;
        } else {
            let ghost st_k = st_of(*states, findings@);
            let ghost fl_k = (skipped, unknown);
            let ghost m_k = memo@;
            let mut j: usize = 0;
            while j < ups.len()
                invariant
                    m_k.submap_of(memo@),
                    j <= ups@.len(),
                    uv == views(ups@),
                    old(memo)@.submap_of(memo@),
                    memo.hasher() == old(memo).hasher(),
                    stack@ == old(stack)@.push(name),
                    views(stack@) == stk,
                    stack_ok(stk, wf.instances@),
                    stk.len() <= wf.instances@.len(),
                    stk.len() == old(stack)@.len() + 1,
                    findings_are(findings@, sfindings(findings@)),
                    forall|fin: HashMemo, h: HashSpec| #[trigger] agrees(h, fin) && memo@.submap_of(fin) ==> walk_ups(env_of(*wf, *ctx, h), uv, 0, stk, st_k,
                        fl_k) == walk_ups(env_of(*wf, *ctx, h), uv, j as int, stk, st_of(*states, findings@), (skipped,
                        unknown)),
                decreases ups.len() - j,
            {
                let ghost cur = st_of(*states, findings@);
                let ghost fl = (skipped, unknown);
                let s = eval_instance(ups[j].as_str(), wf, ctx, states, stack, findings, memo);
                match s {
                    RunState::Skipped => {
                        skipped = true;
                    },
                    RunState::Unknown => {
                        unknown = true;
                    },
                    RunState::Deferred => {
                        unknown = true;
                    },
                    RunState::WillRun => {},
                }
                proof {
                    assert(uv[j as int] == ups@[j as int]@);
                    assert forall|fin: HashMemo, h: HashSpec| #[trigger] agrees(h, fin) && memo@.submap_of(fin) implies walk_ups(env_of(*wf, *ctx, h), uv,
                        j as int, stk, cur, fl) == walk_ups(env_of(*wf, *ctx, h), uv, j + 1, stk, st_of(*states,
                        findings@), (skipped, unknown)) by {
                        assert(walk(env_of(*wf, *ctx, h), uv[j as int], stk, cur) == (s, st_of(*states, findings@)));
                    }
                }
                j += 1;
            }
        }
        k += 1;
    }
    let _ = stack.pop();
    let ghost st2 = st_of(*states, findings@);
    let ghost n1 = findings@.len();
    let ghost f1 = findings@;
    let state = decide(id, inst, wf, ctx, states, findings, skipped, unknown, memo);
    let ghost before_states = *states;
    states.insert(owned(id), state);
    proof {
        let np = findings@.subrange(n1 as int, findings@.len() as int);
        lemma_findings_concat(f1, sfindings(f1), np, sfindings(np));
        assert(f1 + np =~= findings@);
        lemma_sfindings(findings@, sfindings(f1) + sfindings(np));
        lemma_value_map_insert(before_states, *states, id@, state);
        assert forall|fin: HashMemo, h: HashSpec| #[trigger] agrees(h, fin) && memo@.submap_of(fin) implies walk(env_of(*wf, *ctx, h), id@, stk0, st0) == (
            state, st_of(*states, findings@)) by {
            let env = env_of(*wf, *ctx, h);
            let (s_, fs) = instance_state(env, id@, ins, skipped, unknown, st2.states);
            lemma_appended(f1, findings@, fs);
            assert(walk_needs(env, nv, inst.needs@.len() as int, stk, st2, (skipped, unknown)) == ((skipped, unknown), st2));
        }
    }
    state
}

/// Every instance walked in key order, starting from an empty stack.
pub open spec fn walk_all(env: Env, i: int, st: St) -> St
    decreases env.insts.len() - i,
{
    if i < 0 || i >= env.insts.len() {
        st
    } else {
        walk_all(env, i + 1, walk(env, env.insts[i].0, Seq::empty(), st).1)
    }
}

/// The key under which step `idx` of instance `id` is recorded: `id#idx`.
pub open spec fn step_key(id: Seq<char>, idx: nat) -> Seq<char> {
    id + seq!['#'] + decimal(idx)
}

/// The steps `steps[idx..]` of instance `id`, with the job's state and the
/// scope its conditions read.
pub open spec fn steps_from(env: Env, id: Seq<char>, steps: Seq<Step>, idx: int, job_state: RunState, sc: Scope, st: St)
    -> St
    decreases steps.len() - idx,
{
    if idx < 0 || idx >= steps.len() {
        st
    } else {
        let (s, fs) = step_spec(job_state, steps[idx], STarget::Step { file: env.path, job: id, step_idx: idx as nat },
            sc, env.h);
        steps_from(env, id, steps, idx + 1, job_state, sc, St {
            states: st.states.insert(step_key(id, idx as nat), s),
            findings: st.findings + fs,
        })
    }
}

/// The steps of one instance: the job's recorded state (unknown if none),
/// the upstream results known so far and the context with its inputs.
pub open spec fn steps_of(env: Env, id: Seq<char>, inst: JobInstance, st: St) -> St {
    let job_state = if st.states.contains_key(id) {
        st.states[id]
    } else {
        RunState::Unknown
    };
    let needs = resolved_needs_from(env.ctx_needs, views(inst.needs@), env.insts, st.states);
    let sc = Scope { ctx: with_inputs_spec(env.ctx, inst.inputs.map_view()), matrix: inst.matrix.map_view(), needs };
    steps_from(env, id, inst.steps@, 0, job_state, sc, st)
}

/// The steps of every instance, in key order.
pub open spec fn steps_all(env: Env, i: int, st: St) -> St
    decreases env.insts.len() - i,
{
    if i < 0 || i >= env.insts.len() {
        st
    } else {
        steps_all(env, i + 1, steps_of(env, env.insts[i].0, env.insts[i].1, st))
    }
}

// ---------------------------------------------------------------------------
// The shape of an evaluation
// ---------------------------------------------------------------------------

/// Every recorded state belongs to an instance, and a deferred instance's
/// recorded state is `Deferred`.
pub open spec fn rec_ok(env: Env, st: St) -> bool {
    forall|k: Seq<char>| #[trigger] st.states.contains_key(k) ==> lookup(env.insts, k) is Some && (lookup(env.insts, k)->0.support
        == SupportTier::Deferred ==> st.states[k] == RunState::Deferred)
}

/// `b` records every key `a` records.
pub open spec fn keeps_keys(a: St, b: St) -> bool {
    forall|k: Seq<char>| #[trigger] a.states.contains_key(k) ==> b.states.contains_key(k)
}

proof fn lemma_walk_shape(env: Env, id: Seq<char>, stack: Seq<Seq<char>>, st: St)
    requires
        rec_ok(env, st),
    ensures
        rec_ok(env, walk(env, id, stack, st).1),
        keeps_keys(st, walk(env, id, stack, st).1),
        lookup(env.insts, id) is Some && stack.len() == 0 ==> walk(env, id, stack, st).1.states.contains_key(id),
    decreases env.insts.len() - stack.len(), 0int, 0int,
{
    if st.states.contains_key(id) {
    } else if stack.contains(id) {
    } else {
        match lookup(env.insts, id) {
            None => {},
            Some(inst) => if stack.len() >= env.insts.len() {
                if stack.len() == 0 {
                    lemma_lookup_some(env.insts, id);
                }
            } else {
                let (flags, st2) = walk_needs(env, views(inst.needs@), 0, stack.push(id), st, (false, false));
                lemma_walk_needs_shape(env, views(inst.needs@), 0, stack.push(id), st, (false, false));
                let (s, fs) = instance_state(env, id, inst, flags.0, flags.1, st2.states);
                let st3 = St { states: st2.states.insert(id, s), findings: st2.findings + fs };
                assert(walk(env, id, stack, st).1 == st3);
                assert forall|k: Seq<char>| #[trigger] st3.states.contains_key(k) implies lookup(env.insts, k) is Some && (
                    lookup(env.insts, k)->0.support == SupportTier::Deferred ==> st3.states[k] == RunState::Deferred) by {
                    if k != id {
                        assert(st2.states.contains_key(k));
                    }
                }
            },
        }
    }
}

proof fn lemma_walk_needs_shape(env: Env, needs: Seq<Seq<char>>, k: int, stack: Seq<Seq<char>>, st: St, flags: (bool, bool))
    requires
        rec_ok(env, st),
    ensures
        rec_ok(env, walk_needs(env, needs, k, stack, st, flags).1),
        keeps_keys(st, walk_needs(env, needs, k, stack, st, flags).1),
    decreases env.insts.len() - stack.len(), 2int, needs.len() - k,
{
    if k < 0 || k >= needs.len() {
    } else {
        let ups = ups_of(env.insts, needs[k]);
        if ups.len() == 0 {
            lemma_walk_needs_shape(env, needs, k + 1, stack, st, (flags.0, true));
        } else {
            let (f2, st2) = walk_ups(env, ups, 0, stack, st, flags);
            lemma_walk_ups_shape(env, ups, 0, stack, st, flags);
            lemma_walk_needs_shape(env, needs, k + 1, stack, st2, f2);
        }
    }
}

proof fn lemma_walk_ups_shape(env: Env, ups: Seq<Seq<char>>, j: int, stack: Seq<Seq<char>>, st: St, flags: (bool, bool))
    requires
        rec_ok(env, st),
    ensures
        rec_ok(env, walk_ups(env, ups, j, stack, st, flags).1),
        keeps_keys(st, walk_ups(env, ups, j, stack, st, flags).1),
    decreases env.insts.len() - stack.len(), 1int, ups.len() - j,
{
    if j < 0 || j >= ups.len() {
    } else {
        let (s, st2) = walk(env, ups[j], stack, st);
        lemma_walk_shape(env, ups[j], stack, st);
        let f2 = match s {
            RunState::Skipped => (true, flags.1),
            RunState::Unknown => (flags.0, true),
            RunState::Deferred => (flags.0, true),
            RunState::WillRun => flags,
        };
        lemma_walk_ups_shape(env, ups, j + 1, stack, st2, f2);
    }
}

proof fn lemma_walk_all_shape(env: Env, i: int, st: St)
    requires
        rec_ok(env, st),
        0 <= i,
        forall|j: int| 0 <= j < i && j < env.insts.len() ==> #[trigger] st.states.contains_key(env.insts[j].0),
    ensures
        rec_ok(env, walk_all(env, i, st)),
        keeps_keys(st, walk_all(env, i, st)),
        forall|j: int| 0 <= j < env.insts.len() ==> #[trigger] walk_all(env, i, st).states.contains_key(env.insts[j].0),
    decreases env.insts.len() - i,
{
    if i < env.insts.len() {
        let st2 = walk(env, env.insts[i].0, Seq::empty(), st).1;
        lemma_walk_shape(env, env.insts[i].0, Seq::empty(), st);
        lemma_lookup_some(env.insts, env.insts[i].0);
        assert(lookup(env.insts, env.insts[i].0) is Some) by {
            if lookup(env.insts, env.insts[i].0) is None {
                assert(env.insts[i].0 != env.insts[i].0);
            }
        }
        assert forall|j: int| 0 <= j < i + 1 && j < env.insts.len() implies #[trigger] st2.states.contains_key(env.insts[j].0) by {
            if j < i {
                assert(st.states.contains_key(env.insts[j].0));
            }
        }
        lemma_walk_all_shape(env, i + 1, st2);
    }
}

/// `k` has no `#`.
pub open spec fn plain(k: Seq<char>) -> bool {
    !k.contains('#')
}

/// No instance id holds a `#`, so no instance id is a step key.
pub open spec fn ids_plain(insts: Seq<(Seq<char>, JobInstance)>) -> bool {
    forall|i: int| 0 <= i < insts.len() ==> plain(#[trigger] insts[i].0)
}

proof fn lemma_step_key_shape(a: Seq<char>, m: nat, b: Seq<char>, n: nat)
    requires
        plain(a),
        plain(b),
    ensures
        !plain(step_key(a, m)),
        step_key(a, m) == step_key(b, n) ==> a == b,
{
    let ka = step_key(a, m);
    let kb = step_key(b, n);
    assert(ka[a.len() as int] == '#');
    if ka == kb {
        assert(kb[b.len() as int] == '#');
        if a.len() < b.len() {
            assert(kb[a.len() as int] == b[a.len() as int]);
            assert(b.contains('#'));
        } else if b.len() < a.len() {
            assert(ka[b.len() as int] == a[b.len() as int]);
            assert(a.contains('#'));
        } else {
            assert(a =~= ka.subrange(0, a.len() as int));
            assert(b =~= kb.subrange(0, b.len() as int));
        }
    }
}

/// `k` is not the key of step `m < len` of `id`.
pub open spec fn not_step_of(k: Seq<char>, id: Seq<char>, len: int) -> bool {
    forall|m: nat| m < len ==> k != #[trigger] step_key(id, m)
}

proof fn lemma_steps_from_shape(env: Env, id: Seq<char>, steps: Seq<Step>, idx: int, job_state: RunState, sc: Scope, st: St)
    requires
        0 <= idx,
    ensures
        ({
            let r = steps_from(env, id, steps, idx, job_state, sc, st);
            &&& forall|k: Seq<char>| st.states.contains_key(k) ==> #[trigger] r.states.contains_key(k)
            &&& forall|k: Seq<char>| #[trigger] r.states.contains_key(k) ==> st.states.contains_key(k) || !not_step_of(k, id, steps.len() as int)
            &&& forall|k: Seq<char>| not_step_of(k, id, steps.len() as int) ==> (#[trigger] r.states.contains_key(k) == st.states.contains_key(k)
                && r.states[k] == st.states[k])
            &&& forall|m: nat| idx <= m < steps.len() ==> #[trigger] r.states.contains_key(step_key(id, m))
            &&& (job_state == RunState::Skipped || job_state == RunState::Deferred) ==> forall|m: nat| idx <= m < steps.len()
                ==> r.states[#[trigger] step_key(id, m)] == job_state
            &&& (job_state == RunState::Skipped || job_state == RunState::Deferred) ==> forall|m: nat| m < steps.len()
                && #[trigger] st.states.contains_key(step_key(id, m)) && st.states[step_key(id, m)] == job_state ==> r.states[step_key(id, m)] == job_state
        }),
    decreases steps.len() - idx,
{
    if idx < steps.len() {
        let (s0, fs) = step_spec(job_state, steps[idx], STarget::Step { file: env.path, job: id, step_idx: idx as nat }, sc, env.h);
        let key = step_key(id, idx as nat);
        let st1 = St { states: st.states.insert(key, s0), findings: st.findings + fs };
        lemma_steps_from_shape(env, id, steps, idx + 1, job_state, sc, st1);
        let r = steps_from(env, id, steps, idx, job_state, sc, st);
        assert(r == steps_from(env, id, steps, idx + 1, job_state, sc, st1));
        assert forall|k: Seq<char>| #[trigger] r.states.contains_key(k) implies st.states.contains_key(k) || !not_step_of(k, id,
            steps.len() as int) by {
            if k == key {
                assert(!not_step_of(k, id, steps.len() as int)) by {
                    assert(k == step_key(id, idx as nat));
                }
            }
        }
        assert forall|k: Seq<char>| not_step_of(k, id, steps.len() as int) implies (#[trigger] r.states.contains_key(k)
            == st.states.contains_key(k) && r.states[k] == st.states[k]) by {
            assert(k != step_key(id, idx as nat));
        }
        assert forall|k: Seq<char>| st.states.contains_key(k) implies #[trigger] r.states.contains_key(k) by {
            assert(st1.states.contains_key(k));
        }
        assert(st1.states.contains_key(key));
        assert(r.states.contains_key(key));
        if job_state == RunState::Skipped || job_state == RunState::Deferred {
            assert(s0 == job_state);
            assert(st1.states[key] == job_state);
            assert(r.states[key] == job_state);
            assert forall|m: nat| m < steps.len() && #[trigger] st.states.contains_key(step_key(id, m)) && st.states[step_key(id, m)]
                == job_state implies r.states[step_key(id, m)] == job_state by {
                assert(st1.states.contains_key(step_key(id, m)));
                assert(st1.states[step_key(id, m)] == job_state);
            }
        }
    }
}

proof fn lemma_later_not_step(env: Env, i: int, m: nat)
    requires
        0 <= i < env.insts.len(),
        ids_plain(env.insts),
        strictly_sorted(env.insts),
    ensures
        forall|j: int| i < j < env.insts.len() ==> not_step_of(step_key(env.insts[i].0, m), #[trigger] env.insts[j].0,
            env.insts[j].1.steps@.len() as int),
{
    assert forall|j: int| i < j < env.insts.len() implies not_step_of(step_key(env.insts[i].0, m), #[trigger] env.insts[j].0,
        env.insts[j].1.steps@.len() as int) by {
        assert(lex_lt(env.insts[i].0, env.insts[j].0));
        lemma_lex_irreflexive(env.insts[i].0);
        assert forall|mm: nat| mm < env.insts[j].1.steps@.len() implies step_key(env.insts[i].0, m) != #[trigger] step_key(
            env.insts[j].0, mm) by {
            assert(plain(env.insts[i].0));
            assert(plain(env.insts[j].0));
            lemma_step_key_shape(env.insts[i].0, m, env.insts[j].0, mm);
        }
    }
}

proof fn lemma_steps_all_keeps(env: Env, i: int, st: St, k: Seq<char>)
    requires
        0 <= i,
        forall|j: int| i <= j < env.insts.len() ==> not_step_of(k, #[trigger] env.insts[j].0, env.insts[j].1.steps@.len() as int),
    ensures
        steps_all(env, i, st).states.contains_key(k) == st.states.contains_key(k),
        steps_all(env, i, st).states[k] == st.states[k],
    decreases env.insts.len() - i,
{
    if i < env.insts.len() {
        let (id, inst) = env.insts[i];
        let job_state = if st.states.contains_key(id) { st.states[id] } else { RunState::Unknown };
        let needs = resolved_needs_from(env.ctx_needs, views(inst.needs@), env.insts, st.states);
        let sc = Scope { ctx: with_inputs_spec(env.ctx, inst.inputs.map_view()), matrix: inst.matrix.map_view(), needs };
        lemma_steps_from_shape(env, id, inst.steps@, 0, job_state, sc, st);
        assert(not_step_of(k, env.insts[i].0, env.insts[i].1.steps@.len() as int));
        lemma_steps_all_keeps(env, i + 1, steps_of(env, id, inst, st), k);
    }
}

proof fn lemma_steps_all_shape(env: Env, i: int, st: St)
    requires
        0 <= i,
        ids_plain(env.insts),
        strictly_sorted(env.insts),
    ensures
        ({
            let r = steps_all(env, i, st);
            &&& forall|k: Seq<char>| plain(k) ==> (#[trigger] r.states.contains_key(k) == st.states.contains_key(k) && r.states[k] == st.states[k])
            &&& forall|k: Seq<char>| #[trigger] r.states.contains_key(k) ==> st.states.contains_key(k) || exists|j: int, m: nat|
                i <= j < env.insts.len() && m < env.insts[j].1.steps@.len() && k == #[trigger] step_key(env.insts[j].0, m)
            &&& forall|j: int, m: nat| i <= j < env.insts.len() && m < env.insts[j].1.steps@.len() ==> #[trigger] r.states.contains_key(
                step_key(env.insts[j].0, m))
            &&& forall|j: int, m: nat| i <= j < env.insts.len() && m < env.insts[j].1.steps@.len() && st.states.contains_key(env.insts[j].0)
                && (st.states[env.insts[j].0] == RunState::Skipped || st.states[env.insts[j].0] == RunState::Deferred)
                ==> r.states[#[trigger] step_key(env.insts[j].0, m)] == st.states[env.insts[j].0]
        }),
    decreases env.insts.len() - i,
{
    if i < env.insts.len() {
        let (id, inst) = env.insts[i];
        let st1 = steps_of(env, id, inst, st);
        let job_state = if st.states.contains_key(id) { st.states[id] } else { RunState::Unknown };
        let needs = resolved_needs_from(env.ctx_needs, views(inst.needs@), env.insts, st.states);
        let sc = Scope { ctx: with_inputs_spec(env.ctx, inst.inputs.map_view()), matrix: inst.matrix.map_view(), needs };
        lemma_steps_from_shape(env, id, inst.steps@, 0, job_state, sc, st);
        lemma_steps_all_shape(env, i + 1, st1);
        let r = steps_all(env, i, st);
        assert(r == steps_all(env, i + 1, st1));
        assert(plain(id));
        assert forall|k: Seq<char>| plain(k) implies (#[trigger] r.states.contains_key(k) == st.states.contains_key(k) && r.states[k]
            == st.states[k]) by {
            assert forall|m: nat| m < inst.steps@.len() implies k != #[trigger] step_key(id, m) by {
                lemma_step_key_shape(id, m, id, m);
            }
            assert(not_step_of(k, id, inst.steps@.len() as int));
        }
        assert forall|k: Seq<char>| #[trigger] r.states.contains_key(k) implies st.states.contains_key(k) || exists|j: int, m: nat|
            i <= j < env.insts.len() && m < env.insts[j].1.steps@.len() && k == #[trigger] step_key(env.insts[j].0, m) by {
            if !st1.states.contains_key(k) {
                let (j, m) = choose|j: int, m: nat| i + 1 <= j < env.insts.len() && m < env.insts[j].1.steps@.len() && k
                    == #[trigger] step_key(env.insts[j].0, m);
            } else if !st.states.contains_key(k) {
                assert(!not_step_of(k, id, inst.steps@.len() as int));
                let m = choose|m: nat| m < inst.steps@.len() && k == #[trigger] step_key(id, m);
                assert(k == step_key(env.insts[i].0, m));
            }
        }
        assert forall|j: int, m: nat| i <= j < env.insts.len() && m < env.insts[j].1.steps@.len() implies #[trigger] r.states.contains_key(
            step_key(env.insts[j].0, m)) by {
            if j == i {
                assert(st1.states.contains_key(step_key(id, m)));
                assert(!plain(step_key(id, m))) by {
                    lemma_step_key_shape(id, m, id, m);
                }
                lemma_later_not_step(env, i, m);
                lemma_steps_all_keeps(env, i + 1, st1, step_key(id, m));
            }
        }
        assert forall|j: int, m: nat| i <= j < env.insts.len() && m < env.insts[j].1.steps@.len() && st.states.contains_key(
            env.insts[j].0) && (st.states[env.insts[j].0] == RunState::Skipped || st.states[env.insts[j].0] == RunState::Deferred)
            implies r.states[#[trigger] step_key(env.insts[j].0, m)] == st.states[env.insts[j].0] by {
            let b = env.insts[j].0;
            assert(plain(b));
            if j == i {
                assert(st1.states[step_key(id, m)] == job_state);
                lemma_later_not_step(env, i, m);
                lemma_steps_all_keeps(env, i + 1, st1, step_key(id, m));
            } else {
                assert forall|mm: nat| mm < inst.steps@.len() implies b != #[trigger] step_key(id, mm) by {
                    lemma_step_key_shape(id, mm, id, mm);
                }
                assert(not_step_of(b, id, inst.steps@.len() as int));
                assert(st1 == steps_from(env, id, inst.steps@, 0, job_state, sc, st));
                assert(st1.states.contains_key(b) == st.states.contains_key(b));
                assert(st1.states[b] == st.states[b]);
            }
        }
    }
}

/// What evaluating a workflow records, whatever its conditions and hashes
/// give, when no instance id holds a `#`: a state for every instance and
/// every step of it and for nothing else; `Deferred` for a deferred
/// instance; and a skipped or deferred instance's state for each of its
/// steps.
pub open spec fn evaluation_shaped(insts: Seq<(Seq<char>, JobInstance)>, states: Map<Seq<char>, RunState>) -> bool {
    &&& forall|k: Seq<char>| #[trigger] states.contains_key(k) <==> (exists|i: int| 0 <= i < insts.len() && #[trigger] insts[i].0 == k)
        || (exists|i: int, m: nat| 0 <= i < insts.len() && m < insts[i].1.steps@.len() && k == #[trigger] step_key(insts[i].0, m))
    &&& forall|i: int| 0 <= i < insts.len() && (#[trigger] insts[i]).1.support == SupportTier::Deferred ==> states[insts[i].0]
        == RunState::Deferred
    &&& forall|i: int, m: nat| 0 <= i < insts.len() && m < insts[i].1.steps@.len() && (states[insts[i].0] == RunState::Skipped
        || states[insts[i].0] == RunState::Deferred) ==> states[#[trigger] step_key(insts[i].0, m)] == states[insts[i].0]
}

/// The shape of every evaluation: see [`evaluation_shaped`].
pub proof fn lemma_evaluate_shape(env: Env)
    requires
        ids_plain(env.insts),
        strictly_sorted(env.insts),
    ensures
        evaluation_shaped(env.insts, evaluate_spec(env).states),
{
    let e0 = St { states: Map::empty(), findings: Seq::empty() };
    let w = walk_all(env, 0, e0);
    lemma_walk_all_shape(env, 0, e0);
    lemma_steps_all_shape(env, 0, w);
    let st = evaluate_spec(env);
    assert(st == steps_all(env, 0, w));
    assert forall|k: Seq<char>| #[trigger] st.states.contains_key(k) <==> (exists|i: int| 0 <= i < env.insts.len()
        && #[trigger] env.insts[i].0 == k) || (exists|i: int, m: nat| 0 <= i < env.insts.len() && m < env.insts[i].1.steps@.len()
        && k == #[trigger] step_key(env.insts[i].0, m)) by {
        if st.states.contains_key(k) {
            if w.states.contains_key(k) {
                lemma_lookup_some(env.insts, k);
                let i = choose|i: int| 0 <= i < env.insts.len() && env.insts[i].0 == k && env.insts[i].1 == lookup(env.insts, k)->0;
                assert(env.insts[i].0 == k);
            }
        }
        if exists|i: int| 0 <= i < env.insts.len() && #[trigger] env.insts[i].0 == k {
            let i = choose|i: int| 0 <= i < env.insts.len() && #[trigger] env.insts[i].0 == k;
            assert(w.states.contains_key(env.insts[i].0));
            assert(plain(env.insts[i].0));
        }
    }
    assert forall|i: int| 0 <= i < env.insts.len() && (#[trigger] env.insts[i]).1.support == SupportTier::Deferred implies st.states[
        env.insts[i].0] == RunState::Deferred by {
        let id = env.insts[i].0;
        assert(w.states.contains_key(id));
        lemma_lookup_index(env.insts, id, i);
        assert(plain(id));
        assert(st.states.contains_key(id) == w.states.contains_key(id));
        assert(w.states[id] == RunState::Deferred);
    }
    assert forall|i: int, m: nat| 0 <= i < env.insts.len() && m < env.insts[i].1.steps@.len() && (st.states[env.insts[i].0]
        == RunState::Skipped || st.states[env.insts[i].0] == RunState::Deferred) implies st.states[#[trigger] step_key(
        env.insts[i].0, m)] == st.states[env.insts[i].0] by {
        let id = env.insts[i].0;
        assert(w.states.contains_key(id));
        assert(plain(id));
        assert(st.states.contains_key(id) == w.states.contains_key(id));
        assert(st.states[id] == w.states[id]);
    }
}

/// Every condition finding is a `GHA_COND_SKIP` or `GHA_COND_UNKNOWN` one.
pub proof fn lemma_condition_codes(fs: Seq<Finding>, ss: Seq<SFinding>)
    requires
        findings_are(fs, ss),
    ensures
        forall|i: int| 0 <= i < fs.len() ==> (#[trigger] fs[i]).code@ == "GHA_COND_SKIP"@ || fs[i].code@ == "GHA_COND_UNKNOWN"@,
{
    assert forall|i: int| 0 <= i < fs.len() implies (#[trigger] fs[i]).code@ == "GHA_COND_SKIP"@ || fs[i].code@
        == "GHA_COND_UNKNOWN"@ by {
        assert(finding_is(fs[i], ss[i]));
    }
}

/// The upstream instances of need `k` of `needs`.
pub open spec fn ups_k(insts: Seq<(Seq<char>, JobInstance)>, needs: Seq<Seq<char>>, k: int) -> Seq<Seq<char>> {
    ups_of(insts, needs[k])
}

/// `rank` orders the instances below their number so that every instance is
/// ranked above the instances it needs: the `needs` relation has no cycle.
pub open spec fn ranked(insts: Seq<(Seq<char>, JobInstance)>, rank: spec_fn(Seq<char>) -> nat) -> bool {
    &&& forall|d: Seq<char>| #[trigger] lookup(insts, d) is Some ==> rank(d) < insts.len()
    &&& forall|d: Seq<char>, k: int, j: int|
        #[trigger] lookup(insts, d) is Some && 0 <= k < lookup(insts, d)->0.needs@.len() && 0 <= j < ups_k(insts, views(
            lookup(insts, d)->0.needs@), k).len() ==> rank(#[trigger] ups_k(insts, views(lookup(insts, d)->0.needs@), k)[j])
            < rank(d)
}

/// For a recorded instance `d` with `needs`: all its upstream instances are
/// recorded; when it is not deferred, a skipped upstream instance skips it,
/// and it runs only when every need names a job with instances and every
/// upstream instance runs.
pub open spec fn law_at(insts: Seq<(Seq<char>, JobInstance)>, st: Map<Seq<char>, RunState>, d: Seq<char>, inst: JobInstance)
    -> bool {
    let needs = views(inst.needs@);
    &&& forall|k: int, j: int| 0 <= k < needs.len() && 0 <= j < ups_k(insts, needs, k).len() ==> st.contains_key(
        #[trigger] ups_k(insts, needs, k)[j])
    &&& inst.support != SupportTier::Deferred && (exists|k: int, j: int| 0 <= k < needs.len() && 0 <= j < ups_k(insts, needs, k).len()
        && st[#[trigger] ups_k(insts, needs, k)[j]] == RunState::Skipped) ==> st[d] == RunState::Skipped
    &&& inst.support != SupportTier::Deferred && st[d] == RunState::WillRun ==> forall|k: int| 0 <= k < needs.len() ==> (
        #[trigger] ups_k(insts, needs, k)).len() > 0 && forall|j: int| 0 <= j < ups_k(insts, needs, k).len() ==> st[ups_k(
        insts, needs, k)[j]] == RunState::WillRun
}

/// Every recorded instance obeys [`law_at`].
pub open spec fn lawful(env: Env, st: St) -> bool {
    forall|d: Seq<char>| #[trigger] st.states.contains_key(d) ==> lookup(env.insts, d) is Some && law_at(env.insts, st.states,
        d, lookup(env.insts, d)->0)
}

/// `b` keeps every state `a` recorded.
pub open spec fn stable(a: St, b: St) -> bool {
    forall|k: Seq<char>| #[trigger] a.states.contains_key(k) ==> b.states.contains_key(k) && b.states[k] == a.states[k]
}

proof fn lemma_law_stable(insts: Seq<(Seq<char>, JobInstance)>, a: St, b: St, d: Seq<char>, inst: JobInstance)
    requires
        law_at(insts, a.states, d, inst),
        a.states.contains_key(d),
        stable(a, b),
    ensures
        law_at(insts, b.states, d, inst),
{
    let needs = views(inst.needs@);
    assert forall|k: int, j: int| 0 <= k < needs.len() && 0 <= j < ups_k(insts, needs, k).len() implies b.states.contains_key(
        #[trigger] ups_k(insts, needs, k)[j]) && b.states[ups_k(insts, needs, k)[j]] == a.states[ups_k(insts, needs, k)[j]] by {
        assert(a.states.contains_key(ups_k(insts, needs, k)[j]));
    }
}

/// One of `ups[j..]` is recorded as skipped in `m`.
pub open spec fn ups_skipped(ups: Seq<Seq<char>>, j: int, m: Map<Seq<char>, RunState>) -> bool
    decreases ups.len() - j,
{
    if j < 0 || j >= ups.len() {
        false
    } else {
        m[ups[j]] == RunState::Skipped || ups_skipped(ups, j + 1, m)
    }
}

/// One of `ups[j..]` is recorded as unknown or deferred in `m`.
pub open spec fn ups_unsure(ups: Seq<Seq<char>>, j: int, m: Map<Seq<char>, RunState>) -> bool
    decreases ups.len() - j,
{
    if j < 0 || j >= ups.len() {
        false
    } else {
        m[ups[j]] == RunState::Unknown || m[ups[j]] == RunState::Deferred || ups_unsure(ups, j + 1, m)
    }
}

/// An upstream instance of `needs[k..]` is recorded as skipped in `m`.
pub open spec fn needs_skipped(insts: Seq<(Seq<char>, JobInstance)>, needs: Seq<Seq<char>>, k: int, m: Map<Seq<char>, RunState>) -> bool
    decreases needs.len() - k,
{
    if k < 0 || k >= needs.len() {
        false
    } else {
        ups_skipped(ups_k(insts, needs, k), 0, m) || needs_skipped(insts, needs, k + 1, m)
    }
}

/// A need of `needs[k..]` names no job with instances, or an upstream
/// instance of one is recorded as unknown or deferred in `m`.
pub open spec fn needs_unsure(insts: Seq<(Seq<char>, JobInstance)>, needs: Seq<Seq<char>>, k: int, m: Map<Seq<char>, RunState>) -> bool
    decreases needs.len() - k,
{
    if k < 0 || k >= needs.len() {
        false
    } else {
        ups_k(insts, needs, k).len() == 0 || ups_unsure(ups_k(insts, needs, k), 0, m) || needs_unsure(insts, needs, k + 1, m)
    }
}

proof fn lemma_ups_flags_stable(ups: Seq<Seq<char>>, j: int, a: St, b: St)
    requires
        0 <= j,
        forall|jj: int| j <= jj < ups.len() ==> a.states.contains_key(#[trigger] ups[jj]),
        stable(a, b),
    ensures
        ups_skipped(ups, j, a.states) == ups_skipped(ups, j, b.states),
        ups_unsure(ups, j, a.states) == ups_unsure(ups, j, b.states),
    decreases ups.len() - j,
{
    if j < ups.len() {
        assert(a.states.contains_key(ups[j]));
        lemma_ups_flags_stable(ups, j + 1, a, b);
    }
}

proof fn lemma_ups_flags_meaning(ups: Seq<Seq<char>>, j: int, m: Map<Seq<char>, RunState>)
    requires
        0 <= j,
    ensures
        ups_skipped(ups, j, m) <==> exists|jj: int| j <= jj < ups.len() && m[#[trigger] ups[jj]] == RunState::Skipped,
        !ups_skipped(ups, j, m) && !ups_unsure(ups, j, m) ==> forall|jj: int| j <= jj < ups.len() ==> m[#[trigger] ups[jj]]
            == RunState::WillRun,
    decreases ups.len() - j,
{
    if j < ups.len() {
        lemma_ups_flags_meaning(ups, j + 1, m);
        if m[ups[j]] == RunState::Skipped {
            assert(exists|jj: int| j <= jj < ups.len() && m[#[trigger] ups[jj]] == RunState::Skipped);
        }
        if exists|jj: int| j <= jj < ups.len() && m[#[trigger] ups[jj]] == RunState::Skipped {
            let jj = choose|jj: int| j <= jj < ups.len() && m[#[trigger] ups[jj]] == RunState::Skipped;
            if jj > j {
                assert(ups_skipped(ups, j + 1, m));
            }
        }
    }
}

proof fn lemma_needs_flags_meaning(insts: Seq<(Seq<char>, JobInstance)>, needs: Seq<Seq<char>>, k: int, m: Map<Seq<char>, RunState>)
    requires
        0 <= k,
    ensures
        needs_skipped(insts, needs, k, m) <==> exists|kk: int, j: int| k <= kk < needs.len() && 0 <= j < ups_k(insts, needs, kk).len()
            && m[#[trigger] ups_k(insts, needs, kk)[j]] == RunState::Skipped,
        !needs_skipped(insts, needs, k, m) && !needs_unsure(insts, needs, k, m) ==> forall|kk: int| k <= kk < needs.len() ==> (
            #[trigger] ups_k(insts, needs, kk)).len() > 0 && forall|j: int| 0 <= j < ups_k(insts, needs, kk).len() ==> m[ups_k(
            insts, needs, kk)[j]] == RunState::WillRun,
    decreases needs.len() - k,
{
    if k < needs.len() {
        lemma_needs_flags_meaning(insts, needs, k + 1, m);
        let u = ups_k(insts, needs, k);
        lemma_ups_flags_meaning(u, 0, m);
        if ups_skipped(u, 0, m) {
            let j = choose|j: int| 0 <= j < u.len() && m[#[trigger] u[j]] == RunState::Skipped;
            assert(m[ups_k(insts, needs, k)[j]] == RunState::Skipped);
        }
        if exists|kk: int, j: int| k <= kk < needs.len() && 0 <= j < ups_k(insts, needs, kk).len() && m[#[trigger] ups_k(
            insts, needs, kk)[j]] == RunState::Skipped {
            let (kk, j) = choose|kk: int, j: int| k <= kk < needs.len() && 0 <= j < ups_k(insts, needs, kk).len() && m[#[trigger] ups_k(
                insts, needs, kk)[j]] == RunState::Skipped;
            if kk == k {
                assert(m[u[j]] == RunState::Skipped);
            } else {
                assert(needs_skipped(insts, needs, k + 1, m));
            }
        }
    }
}

proof fn lemma_ups_of_members(insts: Seq<(Seq<char>, JobInstance)>, b: Seq<char>, w: int)
    requires
        0 <= w < ups_of(insts, b).len(),
    ensures
        lookup(insts, ups_of(insts, b)[w]) is Some,
    decreases insts.len(),
{
    let pre = insts.drop_last();
    let r = ups_of(pre, b);
    let x = ups_of(insts, b)[w];
    if w < r.len() {
        assert(x == r[w]);
        lemma_ups_of_members(pre, b, w);
        lemma_lookup_some(pre, x);
        let i = choose|i: int| 0 <= i < pre.len() && pre[i].0 == x && pre[i].1 == lookup(pre, x)->0;
        lemma_lookup_some(insts, x);
        if lookup(insts, x) is None {
            assert(insts[i].0 == x);
        }
    } else {
        assert(x == insts.last().0);
        lemma_lookup_some(insts, x);
        if lookup(insts, x) is None {
            assert(insts[insts.len() - 1].0 == x);
        }
    }
}

proof fn lemma_walk_law(env: Env, rank: spec_fn(Seq<char>) -> nat, id: Seq<char>, stack: Seq<Seq<char>>, st: St)
    requires
        ranked(env.insts, rank),
        lawful(env, st),
        forall|x: Seq<char>| stack.contains(x) ==> rank(x) > rank(id),
        stack.len() + rank(id) < env.insts.len(),
    ensures
        stable(st, walk(env, id, stack, st).1),
        lawful(env, walk(env, id, stack, st).1),
        forall|k: Seq<char>| #[trigger] walk(env, id, stack, st).1.states.contains_key(k) && !st.states.contains_key(k) ==> rank(k) <= rank(id),
        lookup(env.insts, id) is Some ==> walk(env, id, stack, st).1.states.contains_key(id) && walk(env, id, stack, st).0
            == walk(env, id, stack, st).1.states[id],
    decreases env.insts.len() - stack.len(), 0int, 0int,
{
    if st.states.contains_key(id) {
    } else if stack.contains(id) {
    } else {
        match lookup(env.insts, id) {
            None => {},
            Some(inst) => {
                let needs = views(inst.needs@);
                let bound = rank(id);
                assert forall|kk: int, j: int| 0 <= kk < needs.len() && 0 <= j < ups_k(env.insts, needs, kk).len() implies rank(
                    #[trigger] ups_k(env.insts, needs, kk)[j]) < bound by {
                    assert(lookup(env.insts, id) is Some);
                    assert(ups_k(env.insts, views(lookup(env.insts, id)->0.needs@), kk)[j] == ups_k(env.insts, needs, kk)[j]);
                }
                let stk = stack.push(id);
                assert forall|x: Seq<char>| stk.contains(x) implies rank(x) >= bound by {
                    if x != id {
                        let i = choose|i: int| 0 <= i < stk.len() && stk[i] == x;
                        assert(stack[i] == x);
                        assert(stack.contains(x));
                    }
                }
                let (flags, st2) = walk_needs(env, needs, 0, stk, st, (false, false));
                lemma_walk_needs_law(env, rank, bound, needs, 0, stk, st, (false, false));
                let (s, fs) = instance_state(env, id, inst, flags.0, flags.1, st2.states);
                let r = St { states: st2.states.insert(id, s), findings: st2.findings + fs };
                assert(walk(env, id, stack, st) == (s, r));
                assert(!st2.states.contains_key(id));
                assert forall|d: Seq<char>| #[trigger] r.states.contains_key(d) implies lookup(env.insts, d) is Some && law_at(
                    env.insts, r.states, d, lookup(env.insts, d)->0) by {
                    if d == id {
                        lemma_needs_flags_meaning(env.insts, needs, 0, st2.states);
                        assert forall|k: int, j: int| 0 <= k < needs.len() && 0 <= j < ups_k(env.insts, needs, k).len() implies
                            r.states.contains_key(#[trigger] ups_k(env.insts, needs, k)[j]) && r.states[ups_k(env.insts, needs, k)[j]]
                            == st2.states[ups_k(env.insts, needs, k)[j]] by {
                            assert(st2.states.contains_key(ups_k(env.insts, needs, k)[j]));
                            assert(rank(ups_k(env.insts, needs, k)[j]) < bound);
                        }
                        if inst.support != SupportTier::Deferred && (exists|k: int, j: int| 0 <= k < needs.len() && 0 <= j < ups_k(
                            env.insts, needs, k).len() && r.states[#[trigger] ups_k(env.insts, needs, k)[j]] == RunState::Skipped) {
                            let (k, j) = choose|k: int, j: int| 0 <= k < needs.len() && 0 <= j < ups_k(env.insts, needs, k).len()
                                && r.states[#[trigger] ups_k(env.insts, needs, k)[j]] == RunState::Skipped;
                            assert(st2.states[ups_k(env.insts, needs, k)[j]] == RunState::Skipped);
                        }
                        if inst.support != SupportTier::Deferred && s == RunState::WillRun {
                            assert(!flags.0);
                            assert(!flags.1);
                            assert forall|k: int| 0 <= k < needs.len() implies (#[trigger] ups_k(env.insts, needs, k)).len() > 0
                                && forall|j: int| 0 <= j < ups_k(env.insts, needs, k).len() ==> r.states[ups_k(env.insts, needs,
                                k)[j]] == RunState::WillRun by {
                                assert(ups_k(env.insts, needs, k).len() > 0);
                                assert forall|j: int| 0 <= j < ups_k(env.insts, needs, k).len() implies r.states[ups_k(env.insts,
                                    needs, k)[j]] == RunState::WillRun by {
                                    assert(r.states.contains_key(ups_k(env.insts, needs, k)[j]));
                                }
                            }
                        }
                    } else {
                        assert(st2.states.contains_key(d));
                        assert(stable(st2, r));
                        lemma_law_stable(env.insts, st2, r, d, lookup(env.insts, d)->0);
                    }
                }
            },
        }
    }
}

proof fn lemma_walk_needs_law(env: Env, rank: spec_fn(Seq<char>) -> nat, bound: nat, needs: Seq<Seq<char>>, k: int,
    stack: Seq<Seq<char>>, st: St, flags: (bool, bool))
    requires
        ranked(env.insts, rank),
        lawful(env, st),
        0 <= k,
        forall|kk: int, j: int| k <= kk < needs.len() && 0 <= j < ups_k(env.insts, needs, kk).len() ==> rank(
            #[trigger] ups_k(env.insts, needs, kk)[j]) < bound,
        forall|x: Seq<char>| stack.contains(x) ==> rank(x) >= bound,
        stack.len() + bound <= env.insts.len(),
    ensures
        ({
            let (f, r) = walk_needs(env, needs, k, stack, st, flags);
            &&& stable(st, r)
            &&& lawful(env, r)
            &&& forall|q: Seq<char>| #[trigger] r.states.contains_key(q) && !st.states.contains_key(q) ==> rank(q) < bound
            &&& forall|kk: int, j: int| k <= kk < needs.len() && 0 <= j < ups_k(env.insts, needs, kk).len() ==> r.states.contains_key(
                #[trigger] ups_k(env.insts, needs, kk)[j])
            &&& f.0 == (flags.0 || needs_skipped(env.insts, needs, k, r.states))
            &&& f.1 == (flags.1 || needs_unsure(env.insts, needs, k, r.states))
        }),
    decreases env.insts.len() - stack.len(), 2int, needs.len() - k,
{
    if k < needs.len() {
        let ups = ups_of(env.insts, needs[k]);
        assert(ups == ups_k(env.insts, needs, k));
        if ups.len() == 0 {
            lemma_walk_needs_law(env, rank, bound, needs, k + 1, stack, st, (flags.0, true));
            let (f, r) = walk_needs(env, needs, k, stack, st, flags);
            assert forall|kk: int, j: int| k <= kk < needs.len() && 0 <= j < ups_k(env.insts, needs, kk).len() implies r.states.contains_key(
                #[trigger] ups_k(env.insts, needs, kk)[j]) by {
            }
        } else {
            assert forall|jj: int| 0 <= jj < ups.len() implies rank(#[trigger] ups[jj]) < bound by {
                assert(rank(ups_k(env.insts, needs, k)[jj]) < bound);
            }
            assert forall|jj: int| 0 <= jj < ups.len() implies lookup(env.insts, #[trigger] ups[jj]) is Some by {
                lemma_ups_of_members(env.insts, needs[k], jj);
            }
            let (f2, st2) = walk_ups(env, ups, 0, stack, st, flags);
            lemma_walk_ups_law(env, rank, bound, ups, 0, stack, st, flags);
            lemma_walk_needs_law(env, rank, bound, needs, k + 1, stack, st2, f2);
            let (f, r) = walk_needs(env, needs, k, stack, st, flags);
            assert((f, r) == walk_needs(env, needs, k + 1, stack, st2, f2));
            lemma_ups_flags_stable(ups, 0, st2, r);
            assert forall|kk: int, j: int| k <= kk < needs.len() && 0 <= j < ups_k(env.insts, needs, kk).len() implies r.states.contains_key(
                #[trigger] ups_k(env.insts, needs, kk)[j]) by {
                if kk == k {
                    assert(st2.states.contains_key(ups[j]));
                }
            }
        }
    }
}

proof fn lemma_walk_ups_law(env: Env, rank: spec_fn(Seq<char>) -> nat, bound: nat, ups: Seq<Seq<char>>, j: int,
    stack: Seq<Seq<char>>, st: St, flags: (bool, bool))
    requires
        ranked(env.insts, rank),
        lawful(env, st),
        0 <= j,
        forall|jj: int| j <= jj < ups.len() ==> rank(#[trigger] ups[jj]) < bound,
        forall|jj: int| j <= jj < ups.len() ==> lookup(env.insts, #[trigger] ups[jj]) is Some,
        forall|x: Seq<char>| stack.contains(x) ==> rank(x) >= bound,
        stack.len() + bound <= env.insts.len(),
    ensures
        ({
            let (f, r) = walk_ups(env, ups, j, stack, st, flags);
            &&& stable(st, r)
            &&& lawful(env, r)
            &&& forall|q: Seq<char>| #[trigger] r.states.contains_key(q) && !st.states.contains_key(q) ==> rank(q) < bound
            &&& forall|jj: int| j <= jj < ups.len() ==> r.states.contains_key(#[trigger] ups[jj])
            &&& f.0 == (flags.0 || ups_skipped(ups, j, r.states))
            &&& f.1 == (flags.1 || ups_unsure(ups, j, r.states))
        }),
    decreases env.insts.len() - stack.len(), 1int, ups.len() - j,
{
    if j < ups.len() {
        let u = ups[j];
        let (s, st2) = walk(env, u, stack, st);
        lemma_walk_law(env, rank, u, stack, st);
        let f2 = match s {
            RunState::Skipped => (true, flags.1),
            RunState::Unknown => (flags.0, true),
            RunState::Deferred => (flags.0, true),
            RunState::WillRun => flags,
        };
        lemma_walk_ups_law(env, rank, bound, ups, j + 1, stack, st2, f2);
        let (f, r) = walk_ups(env, ups, j, stack, st, flags);
        assert((f, r) == walk_ups(env, ups, j + 1, stack, st2, f2));
        assert(st2.states.contains_key(u));
        assert(r.states[u] == s);
    }
}

proof fn lemma_walk_all_law(env: Env, rank: spec_fn(Seq<char>) -> nat, i: int, st: St)
    requires
        ranked(env.insts, rank),
        lawful(env, st),
        0 <= i,
    ensures
        lawful(env, walk_all(env, i, st)),
        stable(st, walk_all(env, i, st)),
    decreases env.insts.len() - i,
{
    if i < env.insts.len() {
        let id = env.insts[i].0;
        lemma_lookup_some(env.insts, id);
        assert(lookup(env.insts, id) is Some) by {
            if lookup(env.insts, id) is None {
                assert(env.insts[i].0 != id);
            }
        }
        lemma_walk_law(env, rank, id, Seq::empty(), st);
        let st2 = walk(env, id, Seq::empty(), st).1;
        lemma_walk_all_law(env, rank, i + 1, st2);
    }
}

/// When the `needs` relation has no cycle (a ranking of the instances
/// orders it) and no instance id holds a `#`, evaluating a workflow records
/// each instance's upstream instances; a skipped upstream instance skips a
/// non-deferred instance; and a non-deferred instance runs only when every
/// need names a job with instances and every upstream instance runs.
pub proof fn lemma_upstream_law(env: Env, rank: spec_fn(Seq<char>) -> nat)
    requires
        ranked(env.insts, rank),
        ids_plain(env.insts),
        strictly_sorted(env.insts),
    ensures
        forall|i: int| 0 <= i < env.insts.len() ==> law_at(env.insts, evaluate_spec(env).states, (#[trigger] env.insts[i]).0,
            env.insts[i].1),
{
    let e0 = St { states: Map::empty(), findings: Seq::empty() };
    let w = walk_all(env, 0, e0);
    lemma_walk_all_law(env, rank, 0, e0);
    lemma_walk_all_shape(env, 0, e0);
    lemma_steps_all_shape(env, 0, w);
    let fin = evaluate_spec(env);
    assert(fin == steps_all(env, 0, w));
    assert forall|k: Seq<char>| #[trigger] w.states.contains_key(k) implies fin.states.contains_key(k) && fin.states[k] == w.states[k] by {
        lemma_lookup_some(env.insts, k);
        let i = choose|i: int| 0 <= i < env.insts.len() && env.insts[i].0 == k && env.insts[i].1 == lookup(env.insts, k)->0;
        assert(plain(env.insts[i].0));
        assert(fin.states.contains_key(k) == w.states.contains_key(k));
    }
    assert(stable(w, fin));
    assert forall|i: int| 0 <= i < env.insts.len() implies law_at(env.insts, fin.states, (#[trigger] env.insts[i]).0,
        env.insts[i].1) by {
        let id = env.insts[i].0;
        assert(w.states.contains_key(id));
        lemma_lookup_index(env.insts, id, i);
        lemma_law_stable(env.insts, w, fin, id, env.insts[i].1);
    }
}

/// The states and findings of evaluating a workflow: every instance walked,
/// then every step.
pub open spec fn evaluate_spec(env: Env) -> St {
    steps_all(env, 0, walk_all(env, 0, St { states: Map::empty(), findings: Seq::empty() }))
}

fn step_key_string(id: &str, idx: usize) -> (s: String)
    ensures
        s@ == step_key(id@, idx as nat),
{
    let mut s = owned(id);
    push_char(&mut s, '#');
    let d = usize_to_string(idx);
    s.append(d.as_str());
    s
}

/// Evaluate every job instance and step of `wf` against `ctx`: the state of
/// each, keyed by instance id (`build`, `test (node=18)`) and by
/// `<instance id>#<step index>`, and the condition findings raised. `hf`
/// hashes files for `hashFiles` (repository root, patterns); it is asked
/// once per root and patterns. The result is [`evaluate_spec`] for a hash
/// function that gives the digests `hf` handed out, whatever they were, and
/// so for every hash function that agrees with `hf`.
pub fn evaluate<H: Fn(String, Vec<String>) -> Option<String>>(wf: &WorkflowFile, ctx: &EvalContext, hf: &H) -> (r: (
    StrMap<RunState>,
    Vec<Finding>,
))
    requires
        hasher_total(*hf),
    ensures
        exists|h: HashSpec| {
            let st = #[trigger] evaluate_spec(env_of(*wf, *ctx, h));
            &&& value_map(r.0) == st.states
            &&& findings_are(r.1@, st.findings)
        },
        forall|h: HashSpec| #[trigger] hashes_as(*hf, h) ==> {
            let st = evaluate_spec(env_of(*wf, *ctx, h));
            &&& value_map(r.0) == st.states
            &&& findings_are(r.1@, st.findings)
        },
        forall|i: int| 0 <= i < r.1@.len() ==> (#[trigger] r.1@[i]).code@ == "GHA_COND_SKIP"@ || r.1@[i].code@
            == "GHA_COND_UNKNOWN"@,
        ids_plain(wf.instances@) ==> evaluation_shaped(wf.instances@, value_map(r.0)),
        forall|rank: spec_fn(Seq<char>) -> nat| #[trigger] ranked(wf.instances@, rank) && ids_plain(wf.instances@) ==> forall|i: int|
            0 <= i < wf.instances@.len() ==> law_at(wf.instances@, value_map(r.0), (#[trigger] wf.instances@[i]).0,
            wf.instances@[i].1),
{
    let mut memo = Hasher::new(hf);
    let mut states: StrMap<RunState> = StrMap::new();
    let mut findings: Vec<Finding> = Vec::new();
    let mut stack: Vec<String> = Vec::new();
    let ghost st0 = St { states: Map::empty(), findings: Seq::empty() };
    proof {
        lemma_sfindings(Seq::<Finding>::empty(), Seq::<SFinding>::empty());
        assert(value_map(states) =~= Map::<Seq<char>, RunState>::empty());
        assert(views(stack@) =~= Seq::<Seq<char>>::empty());
    }
    let n = wf.instances.len();
    let mut i: usize = 0;
    while i < n
        invariant
            i <= n == wf.instances@.len(),
            memo.hasher() == *hf,
            stack@.len() == 0,
            views(stack@) == Seq::<Seq<char>>::empty(),
            findings_are(findings@, sfindings(findings@)),
            forall|fin: HashMemo, h: HashSpec| #[trigger] agrees(h, fin) && memo@.submap_of(fin) ==> walk_all(env_of(*wf, *ctx, h), 0, st0) == walk_all(env_of(
                *wf, *ctx, h), i as int, st_of(states, findings@)),
        decreases n - i,
    {
        let ghost cur = st_of(states, findings@);
        let id = wf.instances.key_at(i);
        assert(stack_ok(views(stack@), wf.instances@));
        let _ = eval_instance(id.as_str(), wf, ctx, &mut states, &mut stack, &mut findings, &mut memo);
        assert(views(stack@) =~= Seq::<Seq<char>>::empty());
        i += 1;
    }
    let ghost walked = st_of(states, findings@);
    let ghost m_walked = memo@;
    let mut i: usize = 0;
    while i < n
        invariant
            m_walked.submap_of(memo@),
            i <= n == wf.instances@.len(),
            memo.hasher() == *hf,
            findings_are(findings@, sfindings(findings@)),
            forall|fin: HashMemo, h: HashSpec| #[trigger] agrees(h, fin) && memo@.submap_of(fin) ==> steps_all(env_of(*wf, *ctx, h), 0, walked) == steps_all(
                env_of(*wf, *ctx, h), i as int, st_of(states, findings@)),
        decreases n - i,
    {
        let id = wf.instances.key_at(i);
        let inst = wf.instances.value_at(i);
        let ghost cur = st_of(states, findings@);
        let job_state = match states.get(id.as_str()) {
            Some(s) => *s,
            None => RunState::Unknown,
        };
        let needs = resolved_needs(inst, wf, ctx, &states);
        let ictx = context_with_inputs(ctx, &inst.inputs);
        let ghost sc = scope_of(ictx, inst.matrix, needs);
        let ghost m_i = memo@;
        let mut idx: usize = 0;
        while idx < inst.steps.len()
            invariant
                m_i.submap_of(memo@),
                idx <= inst.steps@.len(),
                memo.hasher() == *hf,
                findings_are(findings@, sfindings(findings@)),
                sc == scope_of(ictx, inst.matrix, needs),
                forall|fin: HashMemo, h: HashSpec| #[trigger] agrees(h, fin) && memo@.submap_of(fin) ==> steps_from(env_of(*wf, *ctx, h), id@, inst.steps@, 0,
                    job_state, sc, cur) == steps_from(env_of(*wf, *ctx, h), id@, inst.steps@, idx as int, job_state, sc,
                    st_of(states, findings@)),
            decreases inst.steps.len() - idx,
        {
            let ghost before = st_of(states, findings@);
            let ghost f0 = findings@;
            let target = FindingTarget::Step { file: wf.path.clone(), job: id.clone(), step_idx: idx };
            let ghost tv = target.tv();
            let state = eval_step(job_state, &inst.steps[idx], target, &ictx, &inst.matrix, &needs, &mut findings, &mut memo);
            let key = step_key_string(id.as_str(), idx);
            let ghost bs = states;
            states.insert(key, state);
            proof {
                lemma_value_map_insert(bs, states, step_key(id@, idx as nat), state);
                let np = findings@.subrange(f0.len() as int, findings@.len() as int);
                lemma_findings_concat(f0, sfindings(f0), np, sfindings(np));
                assert(f0 + np =~= findings@);
                lemma_sfindings(findings@, sfindings(f0) + sfindings(np));
                assert forall|fin: HashMemo, h: HashSpec| #[trigger] agrees(h, fin) && memo@.submap_of(fin) implies steps_from(env_of(*wf, *ctx, h), id@,
                    inst.steps@, idx as int, job_state, sc, before) == steps_from(env_of(*wf, *ctx, h), id@, inst.steps@,
                    idx + 1, job_state, sc, st_of(states, findings@)) by {
                    let (s_, fs) = step_spec(job_state, inst.steps@[idx as int], tv, sc, h);
                    lemma_appended(f0, findings@, fs);
                }
            }
            idx += 1;
        }
        proof {
            assert forall|fin: HashMemo, h: HashSpec| #[trigger] agrees(h, fin) && memo@.submap_of(fin) implies steps_all(env_of(*wf, *ctx, h), i as int, cur)
                == steps_all(env_of(*wf, *ctx, h), i + 1, st_of(states, findings@)) by {
                let env = env_of(*wf, *ctx, h);
                assert(env.insts[i as int] == wf.instances@[i as int]);
                assert(steps_from(env, id@, inst.steps@, idx as int, job_state, sc, st_of(states, findings@))
                    == st_of(states, findings@));
            }
        }
        i += 1;
    }
    proof {
        use_type_invariant(&memo);
        let fin = memo@;
        let w = memo_hash(fin);
        assert(agrees(w, fin));
        assert(fin.submap_of(fin));
        assert(m_walked.submap_of(fin));
        let env = env_of(*wf, *ctx, w);
        assert(walk_all(env, 0, st0) == walk_all(env, n as int, walked));
        assert(steps_all(env, 0, walked) == steps_all(env, n as int, st_of(states, findings@)));
        assert(value_map(states) == evaluate_spec(env).states && findings_are(findings@, evaluate_spec(env).findings));
        lemma_condition_codes(findings@, evaluate_spec(env).findings);
        if ids_plain(wf.instances@) {
            lemma_evaluate_shape(env);
        }
        assert forall|rank: spec_fn(Seq<char>) -> nat| #[trigger] ranked(wf.instances@, rank) && ids_plain(wf.instances@) implies forall|i: int|
            0 <= i < wf.instances@.len() ==> law_at(wf.instances@, value_map(states), (#[trigger] wf.instances@[i]).0,
            wf.instances@[i].1) by {
            lemma_upstream_law(env, rank);
        }
        assert forall|h: HashSpec| #[trigger] hashes_as(*hf, h) implies agrees(h, fin) by {
            assert forall|k: (Seq<char>, Seq<Seq<char>>)| #[trigger] fin.dom().contains(k) implies h(k.0, k.1) == fin[k] by {
                let c = choose|c: int| 0 <= c < memo.seen@.len() && #[trigger] entry_key(memo.seen@[c]) == k;
                assert(may_hash(*memo.hf, entry_key(memo.seen@[c]), opt_view(memo.seen@[c].2)));
            }
        }
    }
    (states, findings)
}

/// The `workflow_dispatch` input defaults of the workflows, the first
/// workflow that declares a name winning.
pub open spec fn first_defaults(ws: Seq<WorkflowFile>) -> Map<Seq<char>, Seq<char>>
    decreases ws.len(),
{
    if ws.len() == 0 {
        Map::empty()
    } else {
        defaults_spec(ws.last().triggers.sv()).union_prefer_right(first_defaults(ws.drop_last()))
    }
}

impl EvalContext {
    /// The default mock context with the `workflow_dispatch` input defaults of
    /// `workflows` as inputs; when several declare the same input, the first
    /// workflow's default wins.
    pub fn default_mock_for(workflows: &[WorkflowFile]) -> (r: Self)
        ensures
            r.sv() == (SCtx { inputs: first_defaults(workflows@), ..EvalContext::default_mock_spec() }),
            r.secrets@.len() == 0,
            r.needs@.len() == 0,
    {
        let mut ctx = EvalContext::default_mock();
        proof {
            assert(ctx.inputs.map_view() =~= Map::<Seq<char>, Seq<char>>::empty());
            assert(ctx.env.map_view() =~= Map::<Seq<char>, Seq<char>>::empty());
            assert(ctx.vars.map_view() =~= Map::<Seq<char>, Seq<char>>::empty());
            assert(workflows@.take(0) =~= Seq::<WorkflowFile>::empty());
        }
        let mut w: usize = 0;
        while w < workflows.len()
            invariant
                w <= workflows@.len(),
                ctx.sv() == (SCtx { inputs: first_defaults(workflows@.take(w as int)), ..EvalContext::default_mock_spec() }),
                ctx.secrets@.len() == 0,
                ctx.needs@.len() == 0,
            decreases workflows.len() - w,
        {
            let d = workflows[w].triggers.dispatch_defaults();
            let ghost m0 = ctx.inputs.map_view();
            let n = d.len();
            let mut j: usize = 0;
            while j < n
                invariant
                    j <= n == d@.len(),
                    strictly_sorted(d@),
                    ctx.sv() == (SCtx { inputs: ctx.inputs.map_view(), ..EvalContext::default_mock_spec() }),
                    ctx.secrets@.len() == 0,
                    ctx.needs@.len() == 0,
                    forall|q: Seq<char>| #[trigger] ctx.inputs.map_view().contains_key(q) == (m0.contains_key(q) || lookup(
                        d@.take(j as int), q) is Some),
                    forall|q: Seq<char>| #[trigger] ctx.inputs.map_view().contains_key(q) ==> ctx.inputs.map_view()[q] == if m0.contains_key(q) {
                        m0[q]
                    } else {
                        lookup(d@.take(j as int), q)->0@
                    },
                decreases n - j,
            {
                let k = d.key_at(j).clone();
                let v = d.value_at(j).clone();
                let ghost e = d@[j as int];
                let ghost prev = ctx.inputs;
                ctx.inputs.insert_absent(k, v);
                proof {
                    assert forall|i: int| 0 <= i < j implies (#[trigger] d@.take(j as int)[i]).0 != e.0 by {
                        assert(crate::smap::lex_lt(d@[i].0, d@[j as int].0));
                        crate::smap::lemma_lex_irreflexive(e.0);
                    }
                    crate::smap::lemma_lookup_absent(d@.take(j as int), e.0);
                    assert forall|q: Seq<char>| #[trigger] lookup(d@.take(j + 1), q) == if q == e.0 {
                        Some(e.1)
                    } else {
                        lookup(d@.take(j as int), q)
                    } by {
                        crate::smap::lemma_lookup_append(d@.take(j as int), e, q);
                        assert(d@.take(j + 1) =~= d@.take(j as int).push(e));
                        if q == e.0 {
                            assert forall|i: int| 0 <= i < j implies (#[trigger] d@.take(j as int)[i]).0 != q by {
                                assert(crate::smap::lex_lt(d@[i].0, d@[j as int].0));
                                crate::smap::lemma_lex_irreflexive(q);
                            }
                            crate::smap::lemma_lookup_absent(d@.take(j as int), q);
                        }
                    }
                    assert forall|q: Seq<char>| #[trigger] ctx.inputs.map_view().contains_key(q) == (m0.contains_key(q)
                        || lookup(d@.take(j + 1), q) is Some) by {
                        let _ = ctx.inputs.get_spec(q);
                        let _ = prev.map_view().contains_key(q);
                    }
                    assert forall|q: Seq<char>| #[trigger] ctx.inputs.map_view().contains_key(q) implies ctx.inputs.map_view()[q]
                        == if m0.contains_key(q) {
                        m0[q]
                    } else {
                        lookup(d@.take(j + 1), q)->0@
                    } by {
                        let _ = ctx.inputs.get_spec(q);
                        let _ = prev.map_view().contains_key(q);
                    }
                    assert(ctx.inputs.map_view() =~= ctx.inputs.map_view());
                }
                j += 1;
            }
            proof {
                assert(d@.take(n as int) =~= d@);
                let want = first_defaults(workflows@.take(w + 1));
                assert(workflows@.take(w + 1).drop_last() =~= workflows@.take(w as int));
                assert(workflows@.take(w + 1).last() == workflows@[w as int]);
                assert forall|q: Seq<char>| #[trigger] ctx.inputs.map_view().contains_key(q) == want.contains_key(q) by {
                    let _ = d.get_spec(q);
                    let _ = d.map_view().contains_key(q);
                }
                assert forall|q: Seq<char>| ctx.inputs.map_view().contains_key(q) implies #[trigger] ctx.inputs.map_view()[q]
                    == want[q] by {
                    let _ = d.get_spec(q);
                    let _ = d.map_view().contains_key(q);
                }
                assert(ctx.inputs.map_view() =~= want);
            }
            w += 1;
        }
        assert(workflows@.take(w as int) =~= workflows@);
        ctx
    }

    /// The view of [`EvalContext::default_mock`].
    pub open spec fn default_mock_spec() -> SCtx {
        SCtx {
            event_name: "push"@,
            ref_name: "refs/heads/main"@,
            sha: "0000000000000000000000000000000000000000"@,
            repository: "octo/repository"@,
            actor: "octocat"@,
            env: Map::empty(),
            vars: Map::empty(),
            inputs: Map::empty(),
            repo_root: None,
        }
    }
}

/// A job with a skipped upstream job is skipped, whatever its own condition
/// says (unless it is deferred).
pub proof fn lemma_skipped_upstream_skips(env: Env, id: Seq<char>, inst: JobInstance, unknown: bool, st: Map<Seq<char>, RunState>)
    requires
        inst.support != SupportTier::Deferred,
    ensures
        instance_state(env, id, inst, true, unknown, st) == (RunState::Skipped, Seq::<SFinding>::empty()),
{
}

/// A deferred job is deferred, whatever its upstream jobs and condition.
pub proof fn lemma_deferred_job_stays_deferred(env: Env, id: Seq<char>, inst: JobInstance, skipped: bool, unknown: bool, st: Map<Seq<char>, RunState>)
    requires
        inst.support == SupportTier::Deferred,
    ensures
        instance_state(env, id, inst, skipped, unknown, st) == (RunState::Deferred, Seq::<SFinding>::empty()),
{
}

/// A job without a condition runs when no upstream job was skipped or is
/// undecided, and is undecided when an upstream job is.
pub proof fn lemma_no_condition_follows_upstream(env: Env, id: Seq<char>, inst: JobInstance, unknown: bool, st: Map<Seq<char>, RunState>)
    requires
        inst.support != SupportTier::Deferred,
        inst.condition is None,
    ensures
        instance_state(env, id, inst, false, unknown, st) == (if unknown {
            RunState::Unknown
        } else {
            RunState::WillRun
        }, Seq::<SFinding>::empty()),
{
}

/// The steps of a skipped (or deferred) job are skipped (or deferred) with
/// it, whatever their own conditions.
pub proof fn lemma_steps_follow_stopped_job(job_state: RunState, step: Step, target: STarget, sc: Scope, h: HashSpec)
    requires
        job_state == RunState::Skipped || job_state == RunState::Deferred,
    ensures
        step_spec(job_state, step, target, sc, h) == (job_state, Seq::<SFinding>::empty()),
{
}

/// A step's condition can only narrow its running job's state: a false
/// condition skips the step, with a finding.
pub proof fn lemma_false_step_condition_skips(job_state: RunState, step: Step, target: STarget, sc: Scope, h: HashSpec)
    requires
        job_state == RunState::WillRun,
        step.support != SupportTier::Deferred,
        step.condition matches Some(c) && condition_spec(c@, sc, h) == EvalResult::False,
    ensures
        step_spec(job_state, step, target, sc, h) == (RunState::Skipped, seq![SFinding::Skip { target, raw: step.condition->0@ }]),
{
}

} // verus!
