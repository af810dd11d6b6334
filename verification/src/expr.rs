//! Scan `${{ ... }}` expressions embedded in job/step fields, without
//! evaluating them: report unbalanced delimiters and trace
//! `needs.<job>.outputs.<name>` bindings between jobs.

use vstd::prelude::*;
use vstd::string::*;

use crate::ir::{JobInstance, Step, WorkflowFile};
use crate::smap::StrMap;
use crate::findings::{STarget, expr_syntax, Finding, FindingTarget, Severity};
use crate::text::{cat, chars_of, find_from, first_occ, lemma_first_occ_at, lemma_first_occ_bounds, lemma_first_occ_skip, matches_at, occurs_at, owned, string_of_range, trim, trim_range, views};

verus! {

/// `${{`
pub open spec fn open_delim() -> Seq<char> {
    seq!['$', '{', '{']
}

/// `}}`
pub open spec fn close_delim() -> Seq<char> {
    seq!['}', '}']
}

/// The trimmed inner text of every complete `${{ ... }}` pair of `s` at or
/// after index `i`, in order; scanning stops at the first `${{` that has no
/// closing `}}` after it.
pub open spec fn extracted_from(s: Seq<char>, i: int) -> Seq<Seq<char>>
    decreases s.len() + 1 - i,
{
    if i < 0 || i > s.len() {
        Seq::empty()
    } else {
        match first_occ(s, open_delim(), i) {
            None => Seq::empty(),
            Some(o) => match first_occ(s, close_delim(), o + 3) {
                None => Seq::empty(),
                Some(c) => {
                    proof {
                        lemma_first_occ_bounds(s, open_delim(), i);
                        lemma_first_occ_bounds(s, close_delim(), o + 3);
                    }
                    seq![trim(s.subrange(o + 3, c))] + extracted_from(s, c + 2)
                },
            },
        }
    }
}

/// The trimmed inner contents of every well-formed `${{ ... }}` of `s`.
pub open spec fn extracted(s: Seq<char>) -> Seq<Seq<char>> {
    extracted_from(s, 0)
}

/// Opening delimiters minus closing delimiters met when scanning `s` from
/// index `i`, each step taking whichever delimiter comes first.
pub open spec fn depth_from(s: Seq<char>, i: int) -> int
    decreases s.len() + 1 - i,
{
    if i < 0 || i > s.len() {
        0
    } else {
        let o = first_occ(s, open_delim(), i);
        let c = first_occ(s, close_delim(), i);
        proof {
            lemma_first_occ_bounds(s, open_delim(), i);
            lemma_first_occ_bounds(s, close_delim(), i);
        }
        match (o, c) {
            (None, None) => 0,
            (Some(o), None) => 1 + depth_from(s, o + 3),
            (None, Some(c)) => -1 + depth_from(s, c + 2),
            (Some(o), Some(c)) => if o < c {
                1 + depth_from(s, o + 3)
            } else {
                -1 + depth_from(s, c + 2)
            },
        }
    }
}

/// The lowest running depth (opens minus closes, relative to the start) met
/// when scanning `s` from index `i` in the order of [`depth_from`], the start
/// itself included; never above zero.
pub open spec fn low_from(s: Seq<char>, i: int) -> int
    decreases s.len() + 1 - i,
{
    if i < 0 || i > s.len() {
        0
    } else {
        let o = first_occ(s, open_delim(), i);
        let c = first_occ(s, close_delim(), i);
        proof {
            lemma_first_occ_bounds(s, open_delim(), i);
            lemma_first_occ_bounds(s, close_delim(), i);
        }
        let step = match (o, c) {
            (None, None) => 0,
            (Some(o), None) => 1 + low_from(s, o + 3),
            (None, Some(c)) => -1 + low_from(s, c + 2),
            (Some(o), Some(c)) => if o < c {
                1 + low_from(s, o + 3)
            } else {
                -1 + low_from(s, c + 2)
            },
        };
        if step < 0 { step } else { 0 }
    }
}

/// `s` has a `}}` with no `${{` open before it, a `${{` without its `}}`,
/// or any other mismatch between the counts of the two.
pub open spec fn unbalanced(s: Seq<char>) -> bool {
    low_from(s, 0) < 0 || depth_from(s, 0) != 0
}

/// Extract the trimmed inner contents of every well-formed `${{ ... }}`
/// expression in `s`, in order of appearance. An unmatched `${{` ends the
/// scan (see [`unbalanced_expression`] to detect that case).
pub fn extract_expressions(s: &str) -> (out: Vec<String>)
    ensures
        views(out@) == extracted(s@),
{
    let v = chars_of(s);
    let open: Vec<char> = vec!['$', '{', '{'];
    let close: Vec<char> = vec!['}', '}'];
    let mut out: Vec<String> = Vec::new();
    let mut pos: usize = 0;
    loop
        invariant
            pos <= v.len(),
            v@ == s@,
            open@ == open_delim(),
            close@ == close_delim(),
            views(out@) + extracted_from(v@, pos as int) == extracted_from(v@, 0),
        decreases v.len() - pos,
    {
        let ghost before = out@;
        match find_from(&v, &open, pos) {
            None => {
                assert(views(out@) =~= extracted_from(v@, 0));
                return out;
            },
            Some(o) => {
                proof {
                    lemma_first_occ_bounds(v@, open_delim(), pos as int);
                }
                match find_from(&v, &close, o + 3) {
                    None => {
                        assert(views(out@) =~= extracted_from(v@, 0));
                        return out;
                    },
                    Some(c) => {
                        proof {
                            lemma_first_occ_bounds(v@, close_delim(), o + 3);
                        }
                        let inner = trim_range(&v, o + 3, c);
                        out.push(inner);
                        assert(views(out@) =~= views(before).push(trim(v@.subrange(o + 3, c as int))));
                        assert(views(out@) + extracted_from(v@, c + 2) =~= views(before)
                            + extracted_from(v@, pos as int));
                        pos = c + 2;
                    },
                }
            },
        }
    }
    out
}

/// Report whether `s` contains an unbalanced `${{`/`}}` pairing: an opening
/// delimiter with no matching close, a closing delimiter with no matching
/// open, or any other mismatch between the numbers of opens and closes.
pub fn unbalanced_expression(s: &str) -> (r: bool)
    ensures
        r == unbalanced(s@),
{
    let v = chars_of(s);
    let open: Vec<char> = vec!['$', '{', '{'];
    let close: Vec<char> = vec!['}', '}'];
    let mut opens: usize = 0;
    let mut closes: usize = 0;
    let mut dipped: bool = false;
    let mut pos: usize = 0;
    loop
        invariant
            pos <= v.len(),
            opens <= pos,
            closes <= pos,
            v@ == s@,
            open@ == open_delim(),
            close@ == close_delim(),
            opens - closes + depth_from(v@, pos as int) == depth_from(v@, 0),
            !dipped ==> opens >= closes,
            (low_from(v@, 0) < 0) == (dipped || opens - closes + low_from(v@, pos as int) < 0),
        decreases v.len() - pos,
    {
        let o = find_from(&v, &open, pos);
        let c = find_from(&v, &close, pos);
        proof {
            lemma_first_occ_bounds(v@, open_delim(), pos as int);
            lemma_first_occ_bounds(v@, close_delim(), pos as int);
        }
        match (o, c) {
            (None, None) => {
                return dipped || opens != closes;
            },
            (Some(o), None) => {
                proof {
                    assert(low_from(v@, o + 3) <= 0);
                }
                opens += 1;
                pos = o + 3;
            },
            (None, Some(c)) => {
                proof {
                    assert(low_from(v@, c + 2) <= 0);
                }
                closes += 1;
                pos = c + 2;
                if closes > opens {
                    dipped = true;
                }
            },
            (Some(o), Some(c)) => {
                proof {
                    assert(low_from(v@, o + 3) <= 0);
                    assert(low_from(v@, c + 2) <= 0);
                }
                if o < c {
                    opens += 1;
                    pos = o + 3;
                } else {
                    closes += 1;
                    pos = c + 2;
                    if closes > opens {
                        dipped = true;
                    }
                }
            },
        }
    }
}

/// The characters of a job id or output name: `[A-Za-z0-9_-]`.
pub open spec fn is_ident_char(c: char) -> bool {
    ('a' <= c && c <= 'z') || ('A' <= c && c <= 'Z') || ('0' <= c && c <= '9') || c == '_' || c == '-'
}

/// Length of the run of identifier characters of `s` starting at `p`.
pub open spec fn ident_len(s: Seq<char>, p: int) -> nat
    decreases s.len() - p,
{
    if 0 <= p < s.len() && is_ident_char(s[p]) {
        1 + ident_len(s, p + 1)
    } else {
        0
    }
}

pub proof fn lemma_ident_len_bound(s: Seq<char>, p: int)
    requires
        0 <= p <= s.len(),
    ensures
        p + ident_len(s, p) <= s.len(),
    decreases s.len() - p,
{
    if 0 <= p < s.len() && is_ident_char(s[p]) {
        lemma_ident_len_bound(s, p + 1);
    }
}

fn ident_char(c: char) -> (r: bool)
    ensures
        r == is_ident_char(c),
{
    ('a' <= c && c <= 'z') || ('A' <= c && c <= 'Z') || ('0' <= c && c <= '9') || c == '_' || c == '-'
}

fn ident_end(v: &Vec<char>, p: usize) -> (e: usize)
    requires
        p <= v.len(),
    ensures
        e == p + ident_len(v@, p as int),
        e <= v.len(),
{
    let mut e = p;
    while e < v.len() && ident_char(v[e])
        invariant
            p <= e <= v.len(),
            ident_len(v@, p as int) == (e - p) + ident_len(v@, e as int),
        decreases v.len() - e,
    {
        e += 1;
    }
    e
}

/// `needs.`
pub open spec fn needs_prefix() -> Seq<char> {
    seq!['n', 'e', 'e', 'd', 's', '.']
}

/// `.outputs.`
pub open spec fn outputs_middle() -> Seq<char> {
    seq!['.', 'o', 'u', 't', 'p', 'u', 't', 's', '.']
}

/// One `needs.<job>.outputs.<name>` reference: producing job, output name and
/// the reference text itself.
pub struct BindingRef {
    pub producer: Seq<char>,
    pub output: Seq<char>,
    pub raw: Seq<char>,
}

/// Every `needs.<job>.outputs.<name>` reference of `e` at or after `start`,
/// where job and name are maximal runs of `[A-Za-z0-9_-]`; after a
/// reference the search resumes at its end, after a `needs.` that starts
/// none it resumes just past that `needs.`.
pub open spec fn refs_from(e: Seq<char>, start: int) -> Seq<BindingRef>
    decreases e.len() + 1 - start,
{
    if start < 0 || start > e.len() {
        Seq::empty()
    } else {
        match first_occ(e, needs_prefix(), start) {
            None => Seq::empty(),
            Some(st) => {
                proof {
                    lemma_first_occ_bounds(e, needs_prefix(), start);
                }
                let p = st + 6;
                proof {
                    lemma_ident_len_bound(e, p);
                }
                let l1 = ident_len(e, p);
                let m = p + l1;
                if l1 > 0 && occurs_at(e, m, outputs_middle()) {
                    let q = m + 9;
                    proof {
                        lemma_ident_len_bound(e, q);
                    }
                    let l2 = ident_len(e, q);
                    if l2 > 0 {
                        seq![BindingRef {
                            producer: e.subrange(p, m),
                            output: e.subrange(q, q + l2),
                            raw: e.subrange(st, q + l2),
                        }] + refs_from(e, q + l2)
                    } else {
                        refs_from(e, st + 6)
                    }
                } else {
                    refs_from(e, st + 6)
                }
            },
        }
    }
}

/// A traced `needs.<producer_job>.outputs.<output_name>` reference found
/// inside an expression belonging to `consumer_job`.
#[derive(Debug, PartialEq, Eq)]
pub struct Binding {
    pub consumer_job: String,
    /// `None` for a job-level field, otherwise the consuming step's index.
    pub consumer_step_idx: Option<usize>,
    pub producer_job: String,
    pub output_name: String,
    pub raw: String,
}

impl Clone for Binding {
    fn clone(&self) -> (r: Self)
        ensures
            r == *self,
    {
        Binding {
            consumer_job: self.consumer_job.clone(),
            consumer_step_idx: self.consumer_step_idx,
            producer_job: self.producer_job.clone(),
            output_name: self.output_name.clone(),
            raw: self.raw.clone(),
        }
    }
}

/// `b` records reference `r` for the given consumer.
pub open spec fn binding_is(b: Binding, r: BindingRef, job: Seq<char>, step: Option<usize>) -> bool {
    &&& b.consumer_job@ == job
    &&& b.consumer_step_idx == step
    &&& b.producer_job@ == r.producer
    &&& b.output_name@ == r.output
    &&& b.raw@ == r.raw
}

/// `bs` records exactly the references `rs`, in order, for the consumer.
pub open spec fn bindings_are(bs: Seq<Binding>, rs: Seq<BindingRef>, job: Seq<char>, step: Option<usize>) -> bool {
    &&& bs.len() == rs.len()
    &&& forall|i: int| 0 <= i < bs.len() ==> binding_is(#[trigger] bs[i], rs[i], job, step)
}

/// The references of every expression of `exprs`, one expression after another.
pub open spec fn refs_of_all(exprs: Seq<Seq<char>>) -> Seq<BindingRef>
    decreases exprs.len(),
{
    if exprs.len() == 0 {
        Seq::empty()
    } else {
        refs_of_all(exprs.drop_last()) + refs_from(exprs.last(), 0)
    }
}

/// Append to `out` the bindings of every `needs.<job>.outputs.<name>`
/// reference inside the expression body `expr`.
fn needs_outputs_bindings(
    expr: &str,
    consumer_job: &str,
    consumer_step_idx: Option<usize>,
    out: &mut Vec<Binding>,
)
    ensures
        final(out)@.len() == old(out)@.len() + refs_from(expr@, 0).len(),
        final(out)@.subrange(0, old(out)@.len() as int) == old(out)@,
        bindings_are(final(out)@.subrange(old(out)@.len() as int, final(out)@.len() as int),
            refs_from(expr@, 0), consumer_job@, consumer_step_idx),
{
    let e = chars_of(expr);
    let prefix: Vec<char> = vec!['n', 'e', 'e', 'd', 's', '.'];
    let middle: Vec<char> = vec!['.', 'o', 'u', 't', 'p', 'u', 't', 's', '.'];
    let ghost base = out@.len();
    let mut search: usize = 0;
    loop
        invariant
            search <= e.len(),
            e@ == expr@,
            prefix@ == needs_prefix(),
            middle@ == outputs_middle(),
            base == old(out)@.len(),
            out@.len() >= base,
            out@.subrange(0, base as int) == old(out)@,
            ({
                let mine = out@.subrange(base as int, out@.len() as int);
                &&& mine.len() + refs_from(e@, search as int).len() == refs_from(e@, 0).len()
                &&& forall|i: int| 0 <= i < mine.len() ==> binding_is(#[trigger] mine[i],
                    refs_from(e@, 0)[i], consumer_job@, consumer_step_idx)
                &&& forall|i: int| 0 <= i < refs_from(e@, search as int).len() ==>
                    #[trigger] refs_from(e@, search as int)[i] == refs_from(e@, 0)[mine.len() + i]
            }),
        decreases e.len() - search,
    {
        let ghost mine0 = out@.subrange(base as int, out@.len() as int);
        let ghost rest0 = refs_from(e@, search as int);
        match find_from(&e, &prefix, search) {
            None => {
                assert(out@.subrange(base as int, out@.len() as int).len() == refs_from(e@, 0).len());
                return;
            },
            Some(st) => {
                proof {
                    lemma_first_occ_bounds(e@, needs_prefix(), search as int);
                }
                let p = st + 6;
                let m = ident_end(&e, p);
                proof {
                    lemma_ident_len_bound(e@, p as int);
                }
                if m > p && matches_at(&e, m, &middle) {
                    let q = m + 9;
                    let end = ident_end(&e, q);
                    if end > q {
                        let b = Binding {
                            consumer_job: owned(consumer_job),
                            consumer_step_idx,
                            producer_job: string_of_range(&e, p, m),
                            output_name: string_of_range(&e, q, end),
                            raw: string_of_range(&e, st, end),
                        };
                        out.push(b);
                        proof {
                            let mine = out@.subrange(base as int, out@.len() as int);
                            assert(mine =~= mine0.push(b));
                            assert(rest0 =~= seq![rest0[0]] + refs_from(e@, end as int));
                            assert forall|i: int| 0 <= i < refs_from(e@, end as int).len() implies
                                #[trigger] refs_from(e@, end as int)[i] == refs_from(e@, 0)[mine.len() + i] by {
                                assert(refs_from(e@, end as int)[i] == rest0[i + 1]);
                            }
                            assert forall|i: int| 0 <= i < mine.len() implies binding_is(#[trigger] mine[i],
                                refs_from(e@, 0)[i], consumer_job@, consumer_step_idx) by {
                                if i < mine0.len() {
                                    assert(mine[i] == mine0[i]);
                                } else {
                                    assert(rest0[0] == refs_from(e@, 0)[mine0.len() as int]);
                                }
                            }
                        }
                        search = end;
                        continue;
                    }
                }
                search = st + 6;
            },
        }
    }
}

/// Scan one field value `raw` belonging to `consumer_job` (and step
/// `consumer_step_idx`, if any): a field with unbalanced delimiters yields an
/// expression-syntax finding for `target` and no bindings; otherwise every
/// `needs.*.outputs.*` reference of every expression becomes a binding.
pub fn scan_field(
    raw: &str,
    consumer_job: &str,
    consumer_step_idx: Option<usize>,
    target: FindingTarget,
    bindings: &mut Vec<Binding>,
    findings: &mut Vec<Finding>,
)
    ensures
        unbalanced(raw@) ==> {
            &&& final(bindings)@ == old(bindings)@
            &&& final(findings)@.len() == old(findings)@.len() + 1
            &&& final(findings)@.subrange(0, old(findings)@.len() as int) == old(findings)@
            &&& final(findings)@.last().severity == Severity::Warning
            &&& final(findings)@.last().code@ == "GHA_EXPR_SYNTAX"@
            &&& final(findings)@.last().coach@ == crate::findings::EXPR_SYNTAX_COACH@
            &&& final(findings)@.last().target == target
            &&& final(findings)@.last().message@ == "Expression syntax issue: "@
                + "unmatched `${{` near: "@ + raw@
        },
        !unbalanced(raw@) ==> {
            &&& final(findings)@ == old(findings)@
            &&& final(bindings)@.len() == old(bindings)@.len() + refs_of_all(extracted(raw@)).len()
            &&& final(bindings)@.subrange(0, old(bindings)@.len() as int) == old(bindings)@
            &&& bindings_are(final(bindings)@.subrange(old(bindings)@.len() as int, final(bindings)@.len() as int),
                refs_of_all(extracted(raw@)), consumer_job@, consumer_step_idx)
        },
{
    if unbalanced_expression(raw) {
        let detail = cat("unmatched `${{` near: ", raw);
        findings.push(expr_syntax(target, detail.as_str()));
        return;
    }
    let exprs = extract_expressions(raw);
    let ghost base = bindings@.len();
    let mut i: usize = 0;
    while i < exprs.len()
        invariant
            i <= exprs.len(),
            views(exprs@) == extracted(raw@),
            base == old(bindings)@.len(),
            bindings@.len() == base + refs_of_all(views(exprs@).take(i as int)).len(),
            bindings@.subrange(0, base as int) == old(bindings)@,
            bindings_are(bindings@.subrange(base as int, bindings@.len() as int),
                refs_of_all(views(exprs@).take(i as int)), consumer_job@, consumer_step_idx),
        decreases exprs.len() - i,
    {
        let ghost prev = bindings@;
        needs_outputs_bindings(exprs[i].as_str(), consumer_job, consumer_step_idx, bindings);
        proof {
            let t = views(exprs@).take(i + 1);
            assert(t.drop_last() =~= views(exprs@).take(i as int));
            assert(t.last() == exprs@[i as int]@);
            let all = refs_of_all(t);
            let old_refs = refs_of_all(views(exprs@).take(i as int));
            let new_refs = refs_from(exprs@[i as int]@, 0);
            assert(all == old_refs + new_refs);
            let mine = bindings@.subrange(base as int, bindings@.len() as int);
            assert forall|k: int| 0 <= k < mine.len() implies binding_is(#[trigger] mine[k], all[k],
                consumer_job@, consumer_step_idx) by {
                if k < old_refs.len() {
                    assert(mine[k] == prev.subrange(base as int, prev.len() as int)[k]);
                } else {
                    assert(mine[k] == bindings@.subrange(prev.len() as int, bindings@.len() as int)[k - old_refs.len()]);
                }
            }
            assert(bindings@.subrange(0, base as int) =~= prev.subrange(0, base as int));
        }
        i += 1;
    }
    assert(views(exprs@).take(exprs@.len() as int) =~= views(exprs@));
}

// ---------------------------------------------------------------------------
// Scanning a workflow
// ---------------------------------------------------------------------------

/// A field that can hold expressions: its text, the consuming step (`None`
/// for a job-level field) and where a finding about it points.
pub struct Field {
    pub raw: Seq<char>,
    pub step: Option<usize>,
    pub target: STarget,
}

/// The field of an optional value.
pub open spec fn opt_field(o: Option<String>, step: Option<usize>, target: STarget) -> Seq<Field> {
    match o {
        Some(s) => seq![Field { raw: s@, step, target }],
        None => Seq::empty(),
    }
}

/// The fields of a map's values, in key order.
pub open spec fn value_fields(m: StrMap<String>, step: Option<usize>, target: STarget) -> Seq<Field> {
    m@.map_values(|e: (Seq<char>, String)| Field { raw: e.1@, step, target })
}

/// The fields of one step: `if`, `run`, `uses`, then the `with` and `env`
/// values.
pub open spec fn step_fields(st: Step, idx: usize, target: STarget) -> Seq<Field> {
    opt_field(st.condition, Some(idx), target) + opt_field(st.run, Some(idx), target) + opt_field(st.uses, Some(idx),
        target) + value_fields(st.with_inputs, Some(idx), target) + value_fields(st.env, Some(idx), target)
}

/// The fields of the first `n` steps.
pub open spec fn steps_fields(steps: Seq<Step>, path: Seq<char>, id: Seq<char>, n: int) -> Seq<Field>
    decreases n,
{
    if n <= 0 || n > steps.len() {
        Seq::empty()
    } else {
        steps_fields(steps, path, id, n - 1) + step_fields(steps[n - 1], (n - 1) as usize, STarget::Step {
            file: path,
            job: id,
            step_idx: (n - 1) as nat,
        })
    }
}

/// The fields of an instance, in scanning order: its `if`, its `env` and
/// `outputs` values, the text of its `strategy`, then every step's fields.
pub open spec fn instance_fields(path: Seq<char>, id: Seq<char>, inst: JobInstance) -> Seq<Field> {
    let jt = STarget::Job { file: path, job: id };
    opt_field(inst.condition, None, jt) + value_fields(inst.env, None, jt) + value_fields(inst.outputs, None, jt)
        + opt_field(inst.strategy_text, None, jt) + steps_fields(inst.steps@, path, id, inst.steps@.len() as int)
}

/// What scanning found: every binding with its consuming job and step, and
/// every field with unbalanced delimiters with where it points.
pub struct Scanned {
    pub bindings: Seq<(BindingRef, Seq<char>, Option<usize>)>,
    pub syntax: Seq<(STarget, Seq<char>)>,
}

/// The fields scanned one after another for consumer `job`.
pub open spec fn scan_fields(acc: Scanned, job: Seq<char>, fields: Seq<Field>) -> Scanned
    decreases fields.len(),
{
    if fields.len() == 0 {
        acc
    } else {
        let a = scan_fields(acc, job, fields.drop_last());
        let f = fields.last();
        if unbalanced(f.raw) {
            Scanned { syntax: a.syntax.push((f.target, f.raw)), ..a }
        } else {
            Scanned {
                bindings: a.bindings + refs_of_all(extracted(f.raw)).map_values(|r: BindingRef| (r, job, f.step)),
                ..a
            }
        }
    }
}

/// Every instance of `insts` (the first `n`, in key order) scanned.
pub open spec fn scan_instances(path: Seq<char>, insts: Seq<(Seq<char>, JobInstance)>, n: int) -> Scanned
    decreases n,
{
    if n <= 0 || n > insts.len() {
        Scanned { bindings: Seq::empty(), syntax: Seq::empty() }
    } else {
        scan_fields(scan_instances(path, insts, n - 1), insts[n - 1].0, instance_fields(path, insts[n - 1].0,
            insts[n - 1].1))
    }
}

/// Every character of `x` is a letter, digit, `_` or `-`.
pub open spec fn all_ident(x: Seq<char>) -> bool {
    forall|i: int| 0 <= i < x.len() ==> is_ident_char(#[trigger] x[i])
}

/// `r` reads `needs.<producer>.outputs.<output>`, both names nonempty runs of
/// letters, digits, `_` and `-`.
pub open spec fn ref_shaped(r: BindingRef) -> bool {
    &&& r.raw == needs_prefix() + r.producer + outputs_middle() + r.output
    &&& r.producer.len() > 0
    &&& r.output.len() > 0
    &&& all_ident(r.producer)
    &&& all_ident(r.output)
}

proof fn lemma_ident_len_chars(s: Seq<char>, p: int)
    requires
        0 <= p <= s.len(),
    ensures
        p + ident_len(s, p) <= s.len(),
        all_ident(s.subrange(p, p + ident_len(s, p))),
    decreases s.len() - p,
{
    lemma_ident_len_bound(s, p);
    if 0 <= p < s.len() && is_ident_char(s[p]) {
        lemma_ident_len_chars(s, p + 1);
        let l = ident_len(s, p);
        assert forall|i: int| 0 <= i < l implies is_ident_char(#[trigger] s.subrange(p, p + l)[i]) by {
            if i > 0 {
                assert(s.subrange(p, p + l)[i] == s.subrange(p + 1, p + 1 + ident_len(s, p + 1))[i - 1]);
            }
        }
    }
}

proof fn lemma_refs_from_shaped(e: Seq<char>, start: int)
    ensures
        forall|i: int| 0 <= i < refs_from(e, start).len() ==> ref_shaped(#[trigger] refs_from(e, start)[i]),
    decreases e.len() + 1 - start,
{
    if 0 <= start <= e.len() {
        lemma_first_occ_bounds(e, needs_prefix(), start);
        match first_occ(e, needs_prefix(), start) {
            None => {},
            Some(st) => {
                let p = st + 6;
                lemma_ident_len_bound(e, p);
                let l1 = ident_len(e, p);
                let m = p + l1;
                if l1 > 0 && occurs_at(e, m, outputs_middle()) {
                    let q = m + 9;
                    lemma_ident_len_bound(e, q);
                    let l2 = ident_len(e, q);
                    if l2 > 0 {
                        lemma_ident_len_chars(e, p);
                        lemma_ident_len_chars(e, q);
                        lemma_refs_from_shaped(e, q + l2);
                        let r = BindingRef { producer: e.subrange(p, m), output: e.subrange(q, q + l2), raw: e.subrange(st, q + l2) };
                        assert(e.subrange(st, st + 6) == needs_prefix());
                        assert(e.subrange(m, m + 9) == outputs_middle());
                        assert(r.raw =~= e.subrange(st, st + 6) + r.producer + e.subrange(m, m + 9) + r.output);
                        let rest = refs_from(e, q + l2);
                        assert(refs_from(e, start) == seq![r] + rest);
                        assert forall|i: int| 0 <= i < refs_from(e, start).len() implies ref_shaped(
                            #[trigger] refs_from(e, start)[i]) by {
                            if i > 0 {
                                assert(refs_from(e, start)[i] == rest[i - 1]);
                            }
                        }
                    } else {
                        lemma_refs_from_shaped(e, st + 6);
                        assert(refs_from(e, start) == refs_from(e, st + 6));
                    }
                } else {
                    lemma_refs_from_shaped(e, st + 6);
                    assert(refs_from(e, start) == refs_from(e, st + 6));
                }
            },
        }
    } else {
        assert(refs_from(e, start) == Seq::<BindingRef>::empty());
    }
}

proof fn lemma_refs_of_all_shaped(exprs: Seq<Seq<char>>)
    ensures
        forall|i: int| 0 <= i < refs_of_all(exprs).len() ==> ref_shaped(#[trigger] refs_of_all(exprs)[i]),
    decreases exprs.len(),
{
    if exprs.len() > 0 {
        lemma_refs_of_all_shaped(exprs.drop_last());
        lemma_refs_from_shaped(exprs.last(), 0);
        let a = refs_of_all(exprs.drop_last());
        let b = refs_from(exprs.last(), 0);
        assert forall|i: int| 0 <= i < refs_of_all(exprs).len() implies ref_shaped(#[trigger] refs_of_all(exprs)[i]) by {
            if i < a.len() {
                assert(refs_of_all(exprs)[i] == a[i]);
            } else {
                assert(refs_of_all(exprs)[i] == b[i - a.len()]);
            }
        }
    }
}

/// A character that no reference can run across: neither an identifier
/// character nor `.`.
pub open spec fn ref_stop(c: char) -> bool {
    !is_ident_char(c) && c != '.'
}

proof fn lemma_first_occ_shift(w: Seq<char>, y: Seq<char>, pat: Seq<char>, j: int)
    requires
        0 <= j,
    ensures
        first_occ(w + y, pat, w.len() + j) == match first_occ(y, pat, j) {
            Some(k) => Some(k + w.len()),
            None => None,
        },
    decreases y.len() + 1 - j,
{
    let e = w + y;
    if j + pat.len() <= y.len() {
        assert(e.subrange(w.len() + j, w.len() + j + pat.len()) =~= y.subrange(j, j + pat.len()));
        lemma_first_occ_shift(w, y, pat, j + 1);
    }
}

proof fn lemma_ident_len_shift(w: Seq<char>, y: Seq<char>, p: int)
    requires
        0 <= p,
    ensures
        ident_len(w + y, w.len() + p) == ident_len(y, p),
    decreases y.len() - p,
{
    if p < y.len() {
        lemma_ident_len_shift(w, y, p + 1);
    }
}

proof fn lemma_refs_from_shift(w: Seq<char>, y: Seq<char>, j: int)
    requires
        0 <= j <= y.len(),
    ensures
        refs_from(w + y, w.len() + j) == refs_from(y, j),
    decreases y.len() + 1 - j,
{
    let e = w + y;
    let o = w.len() as int;
    lemma_first_occ_shift(w, y, needs_prefix(), j);
    lemma_first_occ_bounds(y, needs_prefix(), j);
    match first_occ(y, needs_prefix(), j) {
        None => {},
        Some(st) => {
            let p = st + 6;
            lemma_ident_len_shift(w, y, p);
            lemma_ident_len_bound(y, p);
            let l1 = ident_len(y, p);
            let m = p + l1;
            if m + 9 <= y.len() {
                assert(e.subrange(o + m, o + m + 9) =~= y.subrange(m, m + 9));
            }
            if l1 > 0 && occurs_at(y, m, outputs_middle()) {
                let q = m + 9;
                lemma_ident_len_shift(w, y, q);
                lemma_ident_len_bound(y, q);
                let l2 = ident_len(y, q);
                if l2 > 0 {
                    assert(e.subrange(o + p, o + m) =~= y.subrange(p, m));
                    assert(e.subrange(o + q, o + q + l2) =~= y.subrange(q, q + l2));
                    assert(e.subrange(o + st, o + q + l2) =~= y.subrange(st, q + l2));
                    lemma_refs_from_shift(w, y, q + l2);
                } else {
                    lemma_refs_from_shift(w, y, st + 6);
                }
            } else {
                lemma_refs_from_shift(w, y, st + 6);
            }
        },
    }
}

proof fn lemma_ident_len_prefix(x: Seq<char>, t: Seq<char>, p: int)
    requires
        0 <= p <= x.len(),
        t.len() > 0,
        ref_stop(t[0]),
    ensures
        ident_len(x + t, p) == ident_len(x, p),
    decreases x.len() - p,
{
    if p < x.len() {
        lemma_ident_len_prefix(x, t, p + 1);
    } else {
        assert((x + t)[p] == t[0]);
    }
}

/// No piece of `pat` is a stop character, so an occurrence of it at `k` in
/// `x + t` cannot cover position `x.len()` when `t` starts with one.
proof fn lemma_no_straddle(x: Seq<char>, t: Seq<char>, pat: Seq<char>, k: int)
    requires
        t.len() > 0,
        ref_stop(t[0]),
        forall|i: int| 0 <= i < pat.len() ==> !ref_stop(#[trigger] pat[i]),
        0 <= k <= x.len() < k + pat.len(),
    ensures
        !occurs_at(x + t, k, pat),
{
    let e = x + t;
    if occurs_at(e, k, pat) {
        let n = x.len() as int;
        assert(e.subrange(k, k + pat.len())[n - k] == e[n]);
        assert(e[n] == t[0]);
        assert(!ref_stop(pat[n - k]));
    }
}

proof fn lemma_pieces_not_stops()
    ensures
        forall|i: int| 0 <= i < needs_prefix().len() ==> !ref_stop(#[trigger] needs_prefix()[i]),
        forall|i: int| 0 <= i < outputs_middle().len() ==> !ref_stop(#[trigger] outputs_middle()[i]),
{
}

proof fn lemma_refs_from_prefix(x: Seq<char>, sep: Seq<char>, y: Seq<char>, i: int)
    requires
        0 <= i <= x.len(),
        sep.len() > 0,
        forall|k: int| 0 <= k < sep.len() ==> ref_stop(#[trigger] sep[k]),
    ensures
        refs_from(x + sep + y, i) == refs_from(x, i) + refs_from(x + sep + y, (x.len() + sep.len()) as int),
    decreases x.len() + 1 - i,
{
    let t = sep + y;
    let e = x + sep + y;
    assert(e =~= x + t);
    assert(t[0] == sep[0]);
    let n = x.len() as int;
    let o = n + sep.len();
    lemma_pieces_not_stops();
    lemma_first_occ_bounds(x, needs_prefix(), i);
    assert forall|k: int| i <= k < n + 6 && k + 6 > n && k <= n implies !#[trigger] occurs_at(e, k, needs_prefix()) by {
        lemma_no_straddle(x, t, needs_prefix(), k);
    }
    assert forall|k: int| 0 <= k && k + 6 <= n implies #[trigger] occurs_at(e, k, needs_prefix())
        == occurs_at(x, k, needs_prefix()) by {
        assert(e.subrange(k, k + 6) =~= x.subrange(k, k + 6));
    }
    match first_occ(x, needs_prefix(), i) {
        None => {
            assert forall|k: int| i <= k < o implies !#[trigger] occurs_at(e, k, needs_prefix()) by {
                if k > n {
                    assert(e[k] == sep[k - n]);
                    assert(ref_stop(sep[k - n]));
                    if occurs_at(e, k, needs_prefix()) {
                        assert(e.subrange(k, k + 6)[0] == e[k]);
                    }
                } else if k + 6 > n {
                    lemma_no_straddle(x, t, needs_prefix(), k);
                }
            }
            lemma_first_occ_skip(e, needs_prefix(), i, o);
            assert(refs_from(x, i) == Seq::<BindingRef>::empty());
            assert(refs_from(e, i) == refs_from(e, o));
            assert(refs_from(x, i) + refs_from(e, o) =~= refs_from(e, o));
        },
        Some(st) => {
            lemma_first_occ_at(e, needs_prefix(), i, st);
            let p = st + 6;
            lemma_ident_len_prefix(x, t, p);
            lemma_ident_len_bound(x, p);
            let l1 = ident_len(x, p);
            let m = p + l1;
            if m + 9 <= n {
                assert(e.subrange(m, m + 9) =~= x.subrange(m, m + 9));
            } else {
                lemma_no_straddle(x, t, outputs_middle(), m);
            }
            if l1 > 0 && occurs_at(x, m, outputs_middle()) {
                let q = m + 9;
                lemma_ident_len_prefix(x, t, q);
                lemma_ident_len_bound(x, q);
                let l2 = ident_len(x, q);
                if l2 > 0 {
                    assert(e.subrange(p, m) =~= x.subrange(p, m));
                    assert(e.subrange(q, q + l2) =~= x.subrange(q, q + l2));
                    assert(e.subrange(st, q + l2) =~= x.subrange(st, q + l2));
                    lemma_refs_from_prefix(x, sep, y, q + l2);
                    let r = BindingRef { producer: x.subrange(p, m), output: x.subrange(q, q + l2), raw: x.subrange(st, q + l2) };
                    assert(refs_from(x, i) == seq![r] + refs_from(x, q + l2));
                    assert(refs_from(e, i) == seq![r] + refs_from(e, q + l2));
                    assert(seq![r] + (refs_from(x, q + l2) + refs_from(e, o)) =~= (seq![r] + refs_from(x, q + l2))
                        + refs_from(e, o));
                } else {
                    lemma_refs_from_prefix(x, sep, y, st + 6);
                }
            } else {
                lemma_refs_from_prefix(x, sep, y, st + 6);
            }
        },
    }
}

/// Law: the references of `x`, then a separator, then `y`, are those of `x`
/// followed by those of `y`, every one of each found, when the separator is
/// nonempty and holds neither identifier characters nor `.` (such as ` && `),
/// so that no reference runs across it.
pub proof fn lemma_refs_concat(x: Seq<char>, sep: Seq<char>, y: Seq<char>)
    requires
        sep.len() > 0,
        forall|k: int| 0 <= k < sep.len() ==> !is_ident_char(#[trigger] sep[k]) && sep[k] != '.',
    ensures
        refs_from(x + sep + y, 0) == refs_from(x, 0) + refs_from(y, 0),
{
    assert forall|k: int| 0 <= k < sep.len() implies ref_stop(#[trigger] sep[k]) by {}
    lemma_refs_from_prefix(x, sep, y, 0);
    lemma_refs_from_shift(x + sep, y, 0);
}

proof fn lemma_ident_run(s: Seq<char>, p: int, n: int)
    requires
        0 <= p,
        0 <= n,
        p + n <= s.len(),
        forall|i: int| p <= i < p + n ==> is_ident_char(#[trigger] s[i]),
        p + n == s.len() || !is_ident_char(s[p + n]),
    ensures
        ident_len(s, p) == n,
    decreases n,
{
    if n > 0 {
        lemma_ident_run(s, p + 1, n - 1);
    }
}

/// Law of a lone reference: the text `needs.<a>.outputs.<b>`, both names
/// nonempty runs of letters, digits, `_` and `-`, holds exactly one
/// reference, to output `b` of job `a`, spelled as the whole text.
pub proof fn lemma_single_ref(a: Seq<char>, b: Seq<char>)
    requires
        a.len() > 0,
        b.len() > 0,
        all_ident(a),
        all_ident(b),
    ensures
        refs_from(needs_prefix() + a + outputs_middle() + b, 0) == seq![
            BindingRef { producer: a, output: b, raw: needs_prefix() + a + outputs_middle() + b },
        ],
{
    let e = needs_prefix() + a + outputs_middle() + b;
    let m = 6 + a.len() as int;
    let q = m + 9;
    assert(e.len() == q + b.len());
    assert(e.subrange(0, 6) =~= needs_prefix());
    lemma_first_occ_at(e, needs_prefix(), 0, 0);
    assert forall|i: int| 6 <= i < m implies is_ident_char(#[trigger] e[i]) by {
        assert(e[i] == a[i - 6]);
    }
    assert(e[m] == '.');
    lemma_ident_run(e, 6, a.len() as int);
    assert(e.subrange(m, m + 9) =~= outputs_middle());
    assert forall|i: int| q <= i < q + b.len() implies is_ident_char(#[trigger] e[i]) by {
        assert(e[i] == b[i - q]);
    }
    lemma_ident_run(e, q, b.len() as int);
    assert(e.subrange(6, m) =~= a);
    assert(e.subrange(q, q + b.len()) =~= b);
    assert(e.subrange(0, q + b.len()) =~= e);
    assert(first_occ(e, needs_prefix(), e.len() as int) is None);
    assert(refs_from(e, e.len() as int) == Seq::<BindingRef>::empty());
}

proof fn lemma_no_occ(s: Seq<char>, pat: Seq<char>, from: int, to: int)
    requires
        pat.len() > 0,
        forall|k: int| from <= k < to && 0 <= k < s.len() ==> s[k] != pat[0],
    ensures
        forall|k: int| from <= k < to ==> !#[trigger] occurs_at(s, k, pat),
{
    assert forall|k: int| from <= k < to implies !#[trigger] occurs_at(s, k, pat) by {
        if occurs_at(s, k, pat) {
            assert(s.subrange(k, k + pat.len())[0] == s[k]);
        }
    }
}

proof fn lemma_first_occ_none(s: Seq<char>, pat: Seq<char>, from: int)
    requires
        0 <= from <= s.len(),
        pat.len() > 0,
        forall|k: int| from <= k < s.len() ==> s[k] != pat[0],
    ensures
        first_occ(s, pat, from) is None,
{
    lemma_no_occ(s, pat, from, s.len() as int);
    lemma_first_occ_skip(s, pat, from, s.len() as int);
}

/// Law of expression extraction: text without `$` or `}` holds no expression
/// and is balanced; such text with one `${{ b }}` in it, `b` itself without
/// `$` or `}`, is balanced and yields exactly the trimmed `b`.
pub proof fn lemma_single_expression(x: Seq<char>, b: Seq<char>, y: Seq<char>)
    requires
        forall|i: int| 0 <= i < x.len() ==> #[trigger] x[i] != '$' && x[i] != '}',
        forall|i: int| 0 <= i < b.len() ==> #[trigger] b[i] != '$' && b[i] != '}',
        forall|i: int| 0 <= i < y.len() ==> #[trigger] y[i] != '$' && y[i] != '}',
    ensures
        extracted(x) == Seq::<Seq<char>>::empty(),
        !unbalanced(x),
        extracted(x + open_delim() + b + close_delim() + y) == seq![trim(b)],
        !unbalanced(x + open_delim() + b + close_delim() + y),
{
    lemma_first_occ_none(x, open_delim(), 0);
    lemma_first_occ_none(x, close_delim(), 0);
    assert(depth_from(x, 0) == 0);
    assert(low_from(x, 0) == 0);
    let e = x + open_delim() + b + close_delim() + y;
    let nx = x.len() as int;
    let ob = nx + 3;
    let c = ob + b.len();
    let end = c + 2;
    assert(e.len() == end + y.len());
    assert forall|k: int| 0 <= k < nx implies #[trigger] e[k] == x[k] by {}
    assert forall|k: int| ob <= k < c implies #[trigger] e[k] == b[k - ob] by {}
    assert forall|k: int| end <= k < e.len() implies #[trigger] e[k] == y[k - end] by {}
    assert(e[nx] == '$' && e[nx + 1] == '{' && e[nx + 2] == '{');
    assert(e[c] == '}' && e[c + 1] == '}');
    assert(e.subrange(nx, nx + 3) =~= open_delim());
    assert(e.subrange(c, c + 2) =~= close_delim());
    // where each delimiter occurs
    lemma_no_occ(e, open_delim(), 0, nx);
    lemma_first_occ_at(e, open_delim(), 0, nx);
    lemma_no_occ(e, close_delim(), 0, c);
    lemma_first_occ_at(e, close_delim(), 0, c);
    lemma_first_occ_at(e, close_delim(), ob, c);
    lemma_first_occ_none(e, open_delim(), ob);
    lemma_first_occ_none(e, open_delim(), end);
    lemma_first_occ_none(e, close_delim(), end);
    // extraction
    assert(e.subrange(ob, c) =~= b);
    assert(extracted_from(e, end) == Seq::<Seq<char>>::empty());
    assert(extracted_from(e, 0) =~= seq![trim(b)]);
    // balance
    assert(depth_from(e, end) == 0);
    assert(low_from(e, end) == 0);
    assert(depth_from(e, ob) == -1);
    assert(low_from(e, ob) == -1);
    assert(depth_from(e, 0) == 0);
    assert(low_from(e, 0) == 0);
}

/// What scanning keeps: bindings of the right shape consumed by `jobs`, and
/// only fields with unbalanced delimiters as syntax findings.
pub open spec fn scanned_ok(sc: Scanned, jobs: Set<Seq<char>>) -> bool {
    &&& forall|k: int| 0 <= k < sc.bindings.len() ==> ref_shaped((#[trigger] sc.bindings[k]).0) && jobs.contains(
        sc.bindings[k].1)
    &&& forall|k: int| 0 <= k < sc.syntax.len() ==> unbalanced((#[trigger] sc.syntax[k]).1)
}

proof fn lemma_scan_fields_ok(acc: Scanned, job: Seq<char>, fields: Seq<Field>, jobs: Set<Seq<char>>)
    requires
        scanned_ok(acc, jobs),
        jobs.contains(job),
    ensures
        scanned_ok(scan_fields(acc, job, fields), jobs),
    decreases fields.len(),
{
    if fields.len() > 0 {
        lemma_scan_fields_ok(acc, job, fields.drop_last(), jobs);
        let a = scan_fields(acc, job, fields.drop_last());
        let f = fields.last();
        if !unbalanced(f.raw) {
            let rs = refs_of_all(extracted(f.raw));
            lemma_refs_of_all_shaped(extracted(f.raw));
            let add = rs.map_values(|r: BindingRef| (r, job, f.step));
            let all = scan_fields(acc, job, fields).bindings;
            assert(all == a.bindings + add);
            assert forall|k: int| 0 <= k < all.len() implies ref_shaped((#[trigger] all[k]).0) && jobs.contains(all[k].1) by {
                if k < a.bindings.len() {
                    assert(all[k] == a.bindings[k]);
                } else {
                    assert(all[k] == add[k - a.bindings.len()]);
                    assert(ref_shaped(rs[k - a.bindings.len()]));
                }
            }
        } else {
            let sy = scan_fields(acc, job, fields).syntax;
            assert forall|k: int| 0 <= k < sy.len() implies unbalanced((#[trigger] sy[k]).1) by {
                if k < a.syntax.len() {
                    assert(sy[k] == a.syntax[k]);
                }
            }
        }
    }
}

/// What [`scan_workflow`] reports: every binding reads
/// `needs.<producer>.outputs.<output>` with both names nonempty and is
/// consumed by an instance of the workflow, and every syntax finding is for
/// a field with unbalanced delimiters.
pub proof fn lemma_scan_instances_ok(path: Seq<char>, insts: Seq<(Seq<char>, JobInstance)>, n: int)
    requires
        0 <= n <= insts.len(),
    ensures
        scanned_ok(scan_instances(path, insts, n), Set::new(|id: Seq<char>| exists|i: int| 0 <= i < insts.len() && #[trigger] insts[i].0 == id)),
    decreases n,
{
    let jobs = Set::new(|id: Seq<char>| exists|i: int| 0 <= i < insts.len() && #[trigger] insts[i].0 == id);
    if n > 0 {
        lemma_scan_instances_ok(path, insts, n - 1);
        assert(jobs.contains(insts[n - 1].0));
        lemma_scan_fields_ok(scan_instances(path, insts, n - 1), insts[n - 1].0, instance_fields(path, insts[n - 1].0,
            insts[n - 1].1), jobs);
    }
}

/// A field of an instance has no step index exactly when it is a job-level
/// field (its `if`, `env`, `outputs` or `strategy`); a step's fields carry the
/// step's index, which is below the number of steps, and point at that step.
pub proof fn lemma_instance_fields_steps(path: Seq<char>, id: Seq<char>, inst: JobInstance, k: int)
    requires
        inst.steps@.len() <= usize::MAX,
        0 <= k < instance_fields(path, id, inst).len(),
    ensures
        ({
            let f = instance_fields(path, id, inst)[k];
            &&& f.step is None <==> f.target == STarget::Job { file: path, job: id }
            &&& f.step matches Some(i) ==> i < inst.steps@.len() && f.target == STarget::Step {
                file: path,
                job: id,
                step_idx: i as nat,
            }
        }),
{
    let jt = STarget::Job { file: path, job: id };
    let head = opt_field(inst.condition, None, jt) + value_fields(inst.env, None, jt) + value_fields(inst.outputs, None, jt)
        + opt_field(inst.strategy_text, None, jt);
    let all = instance_fields(path, id, inst);
    assert(all == head + steps_fields(inst.steps@, path, id, inst.steps@.len() as int));
    if k < head.len() {
        assert(all[k] == head[k]);
        let a = opt_field(inst.condition, None, jt);
        let b = value_fields(inst.env, None, jt);
        let c = value_fields(inst.outputs, None, jt);
        let d = opt_field(inst.strategy_text, None, jt);
        assert(head == a + b + c + d);
        if k < a.len() {
            assert(head[k] == a[k]);
        } else if k < a.len() + b.len() {
            assert(head[k] == b[k - a.len()]);
        } else if k < a.len() + b.len() + c.len() {
            assert(head[k] == c[k - a.len() - b.len()]);
        } else {
            assert(head[k] == d[k - a.len() - b.len() - c.len()]);
        }
    } else {
        assert(all[k] == steps_fields(inst.steps@, path, id, inst.steps@.len() as int)[k - head.len()]);
        lemma_steps_fields_steps(inst.steps@, path, id, inst.steps@.len() as int, k - head.len());
    }
}

proof fn lemma_steps_fields_steps(steps: Seq<Step>, path: Seq<char>, id: Seq<char>, n: int, k: int)
    requires
        0 <= n <= steps.len(),
        steps.len() <= usize::MAX,
        0 <= k < steps_fields(steps, path, id, n).len(),
    ensures
        ({
            let f = steps_fields(steps, path, id, n)[k];
            f.step matches Some(i) && i < n && f.target == STarget::Step { file: path, job: id, step_idx: i as nat }
        }),
    decreases n,
{
    let pre = steps_fields(steps, path, id, n - 1);
    let t = STarget::Step { file: path, job: id, step_idx: (n - 1) as nat };
    let st = step_fields(steps[n - 1], (n - 1) as usize, t);
    assert(steps_fields(steps, path, id, n) == pre + st);
    if k < pre.len() {
        assert(steps_fields(steps, path, id, n)[k] == pre[k]);
        lemma_steps_fields_steps(steps, path, id, n - 1, k);
    } else {
        let j = k - pre.len();
        assert(steps_fields(steps, path, id, n)[k] == st[j]);
        let s0 = steps[n - 1];
        let a = opt_field(s0.condition, Some((n - 1) as usize), t);
        let b = opt_field(s0.run, Some((n - 1) as usize), t);
        let c = opt_field(s0.uses, Some((n - 1) as usize), t);
        let d = value_fields(s0.with_inputs, Some((n - 1) as usize), t);
        let e = value_fields(s0.env, Some((n - 1) as usize), t);
        assert(st == a + b + c + d + e);
        assert(((n - 1) as usize) as int == n - 1);
        if j < a.len() {
            assert(st[j] == a[j]);
        } else if j < a.len() + b.len() {
            assert(st[j] == b[j - a.len()]);
        } else if j < a.len() + b.len() + c.len() {
            assert(st[j] == c[j - a.len() - b.len()]);
        } else if j < a.len() + b.len() + c.len() + d.len() {
            assert(st[j] == d[j - a.len() - b.len() - c.len()]);
        } else {
            assert(st[j] == e[j - a.len() - b.len() - c.len() - d.len()]);
        }
    }
}

/// `bs` records the bindings `s`, one for one.
pub open spec fn bindings_list(bs: Seq<Binding>, s: Seq<(BindingRef, Seq<char>, Option<usize>)>) -> bool {
    bs.len() == s.len() && forall|i: int| 0 <= i < bs.len() ==> #[trigger] binding_is(bs[i], s[i].0, s[i].1, s[i].2)
}

/// `f` reports unbalanced delimiters in `raw` at `target`.
pub open spec fn syntax_finding(f: Finding, target: STarget, raw: Seq<char>) -> bool {
    &&& f.severity == Severity::Warning
    &&& f.code@ == "GHA_EXPR_SYNTAX"@
    &&& f.coach@ == crate::findings::EXPR_SYNTAX_COACH@
    &&& f.target.tv() == target
    &&& f.message@ == "Expression syntax issue: "@ + "unmatched `${{` near: "@ + raw
}

/// `fs` report the fields `s`, one for one.
pub open spec fn syntax_list(fs: Seq<Finding>, s: Seq<(STarget, Seq<char>)>) -> bool {
    fs.len() == s.len() && forall|i: int| 0 <= i < fs.len() ==> #[trigger] syntax_finding(fs[i], s[i].0, s[i].1)
}

struct ScanField {
    raw: String,
    step: Option<usize>,
    target: FindingTarget,
}

spec fn field_views(v: Seq<ScanField>) -> Seq<Field> {
    v.map_values(|f: ScanField| Field { raw: f.raw@, step: f.step, target: f.target.tv() })
}

proof fn lemma_field_views_push(v: Seq<ScanField>, f: ScanField)
    ensures
        field_views(v.push(f)) == field_views(v).push(Field { raw: f.raw@, step: f.step, target: f.target.tv() }),
{
    assert forall|i: int| 0 <= i < v.len() + 1 implies #[trigger] field_views(v.push(f))[i] == field_views(v).push(
        Field { raw: f.raw@, step: f.step, target: f.target.tv() })[i] by {
        if i < v.len() {
            assert(v.push(f)[i] == v[i]);
        }
    }
    assert(field_views(v.push(f)) =~= field_views(v).push(Field { raw: f.raw@, step: f.step, target: f.target.tv() }));
}

fn push_opt(out: &mut Vec<ScanField>, o: &Option<String>, step: Option<usize>, target: &FindingTarget)
    ensures
        field_views(final(out)@) == field_views(old(out)@) + opt_field(*o, step, target.tv()),
{
    match o {
        Some(s) => {
            let f = ScanField { raw: s.clone(), step, target: target.clone() };
            let ghost before = out@;
            out.push(f);
            proof {
                lemma_field_views_push(before, f);
                assert(field_views(before).push(Field { raw: s@, step, target: target.tv() }) =~= field_views(before)
                    + opt_field(*o, step, target.tv()));
            }
        },
        None => {
            assert(field_views(out@) =~= field_views(out@) + opt_field(*o, step, target.tv()));
        },
    }
}

fn push_values(out: &mut Vec<ScanField>, m: &StrMap<String>, step: Option<usize>, target: &FindingTarget)
    ensures
        field_views(final(out)@) == field_views(old(out)@) + value_fields(*m, step, target.tv()),
{
    let n = m.len();
    let mut i: usize = 0;
    let ghost all = value_fields(*m, step, target.tv());
    assert(field_views(out@) =~= field_views(old(out)@) + all.take(0));
    while i < n
        invariant
            i <= n == m@.len(),
            all == value_fields(*m, step, target.tv()),
            field_views(out@) == field_views(old(out)@) + all.take(i as int),
        decreases n - i,
    {
        let f = ScanField { raw: m.value_at(i).clone(), step, target: target.clone() };
        let ghost before = out@;
        out.push(f);
        proof {
            lemma_field_views_push(before, f);
            assert(all[i as int] == Field { raw: m@[i as int].1@, step, target: target.tv() });
            assert(all.take(i + 1) =~= all.take(i as int).push(all[i as int]));
            assert(field_views(out@) =~= field_views(old(out)@) + all.take(i + 1));
        }
        i += 1;
    }
    assert(all.take(n as int) =~= all);
}

fn collect_fields(path: &String, id: &String, inst: &JobInstance) -> (r: Vec<ScanField>)
    ensures
        field_views(r@) == instance_fields(path@, id@, *inst),
{
    let mut out: Vec<ScanField> = Vec::new();
    let jt = FindingTarget::Job { file: path.clone(), job: id.clone() };
    let ghost jv = STarget::Job { file: path@, job: id@ };
    assert(field_views(out@) =~= Seq::<Field>::empty());
    push_opt(&mut out, &inst.condition, None, &jt);
    push_values(&mut out, &inst.env, None, &jt);
    push_values(&mut out, &inst.outputs, None, &jt);
    push_opt(&mut out, &inst.strategy_text, None, &jt);
    let ghost head = field_views(out@);
    let mut k: usize = 0;
    while k < inst.steps.len()
        invariant
            k <= inst.steps@.len(),
            field_views(out@) == head + steps_fields(inst.steps@, path@, id@, k as int),
        decreases inst.steps.len() - k,
    {
        let st = &inst.steps[k];
        let target = FindingTarget::Step { file: path.clone(), job: id.clone(), step_idx: k };
        let ghost before = field_views(out@);
        push_opt(&mut out, &st.condition, Some(k), &target);
        push_opt(&mut out, &st.run, Some(k), &target);
        push_opt(&mut out, &st.uses, Some(k), &target);
        push_values(&mut out, &st.with_inputs, Some(k), &target);
        push_values(&mut out, &st.env, Some(k), &target);
        proof {
            assert(field_views(out@) =~= before + step_fields(*st, k, target.tv()));
            assert(steps_fields(inst.steps@, path@, id@, k + 1) == steps_fields(inst.steps@, path@, id@, k as int)
                + step_fields(inst.steps@[k as int], k, target.tv()));
            assert(field_views(out@) =~= head + steps_fields(inst.steps@, path@, id@, k + 1));
        }
        k += 1;
    }
    proof {
        assert(field_views(out@) =~= instance_fields(path@, id@, *inst));
    }
    out
}

/// Scan every field that can hold expressions (job `if`, `env`, `outputs`
/// and `strategy`; step `if`, `run`, `uses`, `with` and `env`) of every
/// instance of `wf`, in instance order: a field with unbalanced `${{`/`}}`
/// is reported and skipped, the `needs.*.outputs.*` references of the others
/// become bindings; see [`scan_instances`].
pub fn scan_workflow(wf: &WorkflowFile) -> (r: (Vec<Binding>, Vec<Finding>))
    ensures
        bindings_list(r.0@, scan_instances(wf.path@, wf.instances@, wf.instances@.len() as int).bindings),
        syntax_list(r.1@, scan_instances(wf.path@, wf.instances@, wf.instances@.len() as int).syntax),
{
    let mut bindings: Vec<Binding> = Vec::new();
    let mut findings: Vec<Finding> = Vec::new();
    let n = wf.instances.len();
    let mut i: usize = 0;
    while i < n
        invariant
            i <= n == wf.instances@.len(),
            bindings_list(bindings@, scan_instances(wf.path@, wf.instances@, i as int).bindings),
            syntax_list(findings@, scan_instances(wf.path@, wf.instances@, i as int).syntax),
        decreases n - i,
    {
        let id = wf.instances.key_at(i);
        let inst = wf.instances.value_at(i);
        let fields = collect_fields(&wf.path, id, inst);
        let ghost acc0 = scan_instances(wf.path@, wf.instances@, i as int);
        let ghost fv = field_views(fields@);
        let mut j: usize = 0;
        assert(fv.take(0) =~= Seq::<Field>::empty());
        while j < fields.len()
            invariant
                j <= fields@.len(),
                fv == field_views(fields@),
                bindings_list(bindings@, scan_fields(acc0, id@, fv.take(j as int)).bindings),
                syntax_list(findings@, scan_fields(acc0, id@, fv.take(j as int)).syntax),
            decreases fields.len() - j,
        {
            let f = &fields[j];
            let ghost fb = bindings@;
            let ghost ff = findings@;
            let ghost prev = scan_fields(acc0, id@, fv.take(j as int));
            proof {
                assert(fv.take(j + 1).drop_last() =~= fv.take(j as int));
                assert(fv.take(j + 1).last() == fv[j as int]);
                assert(fv[j as int] == Field { raw: f.raw@, step: f.step, target: f.target.tv() });
            }
            scan_field(f.raw.as_str(), id.as_str(), f.step, f.target.clone(), &mut bindings, &mut findings);
            proof {
                if unbalanced(f.raw@) {
                    assert(findings@ =~= ff.push(findings@.last()));
                    assert forall|k: int| 0 <= k < findings@.len() implies #[trigger] syntax_finding(findings@[k],
                        scan_fields(acc0, id@, fv.take(j + 1)).syntax[k].0, scan_fields(acc0, id@, fv.take(j + 1)).syntax[k].1) by {
                        if k < ff.len() {
                            assert(findings@[k] == ff[k]);
                        }
                    }
                    assert(bindings@ == fb);
                } else {
                    let rs = refs_of_all(extracted(f.raw@));
                    let add = rs.map_values(|r: BindingRef| (r, id@, f.step));
                    let nb = bindings@.subrange(fb.len() as int, bindings@.len() as int);
                    assert forall|k: int| 0 <= k < bindings@.len() implies #[trigger] binding_is(bindings@[k], (prev.bindings
                        + add)[k].0, (prev.bindings + add)[k].1, (prev.bindings + add)[k].2) by {
                        if k < fb.len() {
                            assert(bindings@[k] == bindings@.subrange(0, fb.len() as int)[k]);
                            assert(bindings@.subrange(0, fb.len() as int) == fb);
                        } else {
                            assert(bindings@[k] == nb[k - fb.len()]);
                            assert(binding_is(nb[k - fb.len()], rs[k - fb.len()], id@, f.step));
                        }
                    }
                    assert(findings@ == ff);
                }
            }
            j += 1;
        }
        proof {
            assert(fv.take(j as int) =~= fv);
            assert(scan_instances(wf.path@, wf.instances@, i + 1) == scan_fields(acc0, id@, fv));
        }
        i += 1;
    }
    (bindings, findings)
}

} // verus!
