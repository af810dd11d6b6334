//! The decisions of an explicit remote fetch: which remote references to
//! fetch, in what order, how deep nested references are followed, and which
//! failures become findings. The caller performs each step the machine asks
//! for (a download, or reading a fetched action's references) and reports
//! what happened.

use vstd::prelude::*;

use crate::analysis::{fview, FindingView};
use crate::fetch::RemoteRef;
use crate::findings::{uses_fetch, Finding, FindingTarget, STarget, Severity, USES_FETCH_COACH};
use crate::json::opt_view;
use crate::smap::str_eq;
use crate::uses::MAX_USES_DEPTH;

verus! {

/// A remote reference, by view.
pub type RemoteKey = (Seq<char>, Seq<char>, Option<Seq<char>>, Seq<char>, Seq<char>);

/// The view of a remote reference.
pub open spec fn key_of(r: RemoteRef) -> RemoteKey {
    (r.owner@, r.repo@, opt_view(r.subpath), r.rev@, r.raw@)
}

/// What the caller is asked to do next.
pub enum FetchStep {
    /// Download this reference into the cache and report with
    /// [`RemoteFetch::fetched`].
    Fetch(RemoteRef),
    /// Read the references named by this cached reference and report them
    /// with [`RemoteFetch::nested`].
    ReadNested(RemoteRef),
    /// Nothing is left to do.
    Done,
}

/// A breadth-first fetch of remote references: a queue of references with
/// the target they were found under and how deep they are nested, the
/// outcome of every reference fetched so far (`None` for success, else the
/// error), the references whose nested references were read, and the
/// findings of failed fetches.
pub struct RemoteFetch {
    pub queue: Vec<(RemoteRef, FindingTarget, usize)>,
    pub head: usize,
    pub known: Vec<(RemoteRef, Option<String>)>,
    pub expanded: Vec<RemoteRef>,
    pub findings: Vec<Finding>,
    pub nested_for: Option<(FindingTarget, usize)>,
}

/// The outcome recorded for `k`, if any.
pub open spec fn known_outcome(known: Seq<(RemoteRef, Option<String>)>, k: RemoteKey) -> Option<Option<Seq<char>>>
    decreases known.len(),
{
    if known.len() == 0 {
        None
    } else if key_of(known[0].0) == k {
        Some(opt_view(known[0].1))
    } else {
        known_outcome(known.drop_first(), k)
    }
}

/// The finding for a failed fetch of `raw` under `target`.
pub open spec fn fetch_view(target: STarget, raw: Seq<char>, error: Seq<char>) -> FindingView {
    FindingView {
        severity: Severity::Warning,
        code: "GHA_USES_FETCH"@,
        target,
        message: "Could not fetch remote `uses:` reference `"@ + raw + "`: "@ + error,
        coach: USES_FETCH_COACH@,
    }
}

/// What the machine asks for, by view.
pub enum StepView {
    Fetch(RemoteKey),
    ReadNested(RemoteKey, STarget, nat),
    Done,
}

/// The view of a step.
pub open spec fn step_view(s: FetchStep, target: STarget, depth: nat) -> StepView {
    match s {
        FetchStep::Fetch(r) => StepView::Fetch(key_of(r)),
        FetchStep::ReadNested(r) => StepView::ReadNested(key_of(r), target, depth),
        FetchStep::Done => StepView::Done,
    }
}

/// From queue position `head`: entries nested too deep are dropped; a
/// reference whose fetch failed adds a finding; one fetched fine is read for
/// nested references the first time only; the first reference never fetched
/// is asked for. Gives the new position, the references read, the findings
/// and the step.
pub open spec fn advance(
    queue: Seq<(RemoteRef, FindingTarget, usize)>,
    head: int,
    known: Seq<(RemoteRef, Option<String>)>,
    expanded: Seq<RemoteKey>,
    findings: Seq<FindingView>,
) -> (int, Seq<RemoteKey>, Seq<FindingView>, StepView)
    decreases queue.len() - head,
{
    if head < 0 || head >= queue.len() {
        (head, expanded, findings, StepView::Done)
    } else {
        let (r, t, d) = queue[head];
        if d >= MAX_USES_DEPTH {
            advance(queue, head + 1, known, expanded, findings)
        } else {
            match known_outcome(known, key_of(r)) {
                None => (head, expanded, findings, StepView::Fetch(key_of(r))),
                Some(Some(e)) => advance(queue, head + 1, known, expanded, findings.push(fetch_view(t.tv(), r.raw@, e))),
                Some(None) => if expanded.contains(key_of(r)) {
                    advance(queue, head + 1, known, expanded, findings)
                } else {
                    (head + 1, expanded.push(key_of(r)), findings, StepView::ReadNested(key_of(r), t.tv(), d as nat))
                },
            }
        }
    }
}

/// The references read so far, by view.
pub open spec fn expanded_keys(e: Seq<RemoteRef>) -> Seq<RemoteKey> {
    e.map_values(|r: RemoteRef| key_of(r))
}

fn same_remote(a: &RemoteRef, b: &RemoteRef) -> (r: bool)
    ensures
        r == (key_of(*a) == key_of(*b)),
{
    let sub = match (&a.subpath, &b.subpath) {
        (Some(x), Some(y)) => str_eq(x.as_str(), y.as_str()),
        (None, None) => true,
        _ => false,
    };
    str_eq(a.owner.as_str(), b.owner.as_str()) && str_eq(a.repo.as_str(), b.repo.as_str()) && sub && str_eq(
        a.rev.as_str(),
        b.rev.as_str(),
    ) && str_eq(a.raw.as_str(), b.raw.as_str())
}

fn lookup_known(known: &Vec<(RemoteRef, Option<String>)>, r: &RemoteRef) -> (o: Option<Option<String>>)
    ensures
        match o {
            None => known_outcome(known@, key_of(*r)) is None,
            Some(x) => known_outcome(known@, key_of(*r)) == Some(opt_view(x)),
        },
{
    let mut i: usize = 0;
    assert(known@.skip(0) =~= known@);
    while i < known.len()
        invariant
            i <= known.len(),
            known_outcome(known@, key_of(*r)) == known_outcome(known@.skip(i as int), key_of(*r)),
        decreases known.len() - i,
    {
        proof {
            assert(known@.skip(i as int).drop_first() =~= known@.skip(i + 1));
        }
        if same_remote(&known[i].0, r) {
            let found = match &known[i].1 {
                Some(e) => Some(e.clone()),
                None => None,
            };
            return Some(found);
        }
        i += 1;
    }
    None
}

fn is_expanded(expanded: &Vec<RemoteRef>, r: &RemoteRef) -> (b: bool)
    ensures
        b == expanded_keys(expanded@).contains(key_of(*r)),
{
    let mut i: usize = 0;
    while i < expanded.len()
        invariant
            i <= expanded.len(),
            forall|j: int| 0 <= j < i ==> expanded_keys(expanded@)[j] != key_of(*r),
        decreases expanded.len() - i,
    {
        if same_remote(&expanded[i], r) {
            assert(expanded_keys(expanded@)[i as int] == key_of(*r));
            return true;
        }
        i += 1;
    }
    false
}

impl RemoteFetch {
    /// A fetch starting from `remotes`, each with the target it was found
    /// under, at depth 0.
    pub fn new(remotes: Vec<(RemoteRef, FindingTarget)>) -> (m: Self)
        ensures
            m.queue@.len() == remotes@.len(),
            forall|i: int| 0 <= i < remotes@.len() ==> (#[trigger] m.queue@[i]) == (remotes@[i].0, remotes@[i].1, 0usize),
            m.head == 0,
            m.known@.len() == 0,
            m.expanded@.len() == 0,
            m.findings@.len() == 0,
            m.nested_for is None,
    {
        let mut queue: Vec<(RemoteRef, FindingTarget, usize)> = Vec::new();
        let mut rest = remotes;
        let ghost all = rest@;
        let n = rest.len();
        let mut i: usize = 0;
        while i < n
            invariant
                i <= n == all.len(),
                rest@ == all.skip(i as int),
                queue@.len() == i,
                forall|k: int| 0 <= k < i ==> (#[trigger] queue@[k]) == (all[k].0, all[k].1, 0usize),
            decreases n - i,
        {
            let (r, t) = rest.remove(0);
            proof {
                assert(all.skip(i + 1) =~= all.skip(i as int).drop_first());
            }
            queue.push((r, t, 0));
            i += 1;
        }
        RemoteFetch { queue, head: 0, known: Vec::new(), expanded: Vec::new(), findings: Vec::new(), nested_for: None }
    }

    /// The next step: see [`advance`]. A reference to read for nested
    /// references is remembered with its target and depth for
    /// [`RemoteFetch::nested`].
    pub fn next(&mut self) -> (s: FetchStep)
        requires
            old(self).head <= old(self).queue@.len(),
        ensures
            ({
                let (h, e, f, sv) = advance(
                    old(self).queue@,
                    old(self).head as int,
                    old(self).known@,
                    expanded_keys(old(self).expanded@),
                    fviews_of(old(self).findings@),
                );
                &&& final(self).head == h
                &&& expanded_keys(final(self).expanded@) == e
                &&& fviews_of(final(self).findings@) == f
                &&& match final(self).nested_for {
                    Some((t, d)) => step_view(s, t.tv(), d as nat) == sv && s is ReadNested,
                    None => step_view(s, STarget::File(Seq::empty()), 0) == sv && !(s is ReadNested),
                }
            }),
            final(self).queue == old(self).queue,
            final(self).known == old(self).known,
            final(self).head <= final(self).queue@.len(),
    {
        self.nested_for = None;
        while self.head < self.queue.len()
            invariant
                self.head <= self.queue@.len(),
                self.queue == old(self).queue,
                self.known == old(self).known,
                self.nested_for is None,
                advance(self.queue@, self.head as int, self.known@, expanded_keys(self.expanded@), fviews_of(self.findings@))
                    == advance(
                    old(self).queue@,
                    old(self).head as int,
                    old(self).known@,
                    expanded_keys(old(self).expanded@),
                    fviews_of(old(self).findings@),
                ),
            decreases self.queue@.len() - self.head,
        {
            let h = self.head;
            let d = self.queue[h].2;
            if d >= MAX_USES_DEPTH {
                self.head = h + 1;
                continue;
            }
            match lookup_known(&self.known, &self.queue[h].0) {
                None => {
                    let r = self.queue[h].0.clone();
                    return FetchStep::Fetch(r);
                },
                Some(Some(error)) => {
                    let ghost before = self.findings@;
                    let f = uses_fetch(self.queue[h].1.clone(), self.queue[h].0.raw.as_str(), error.as_str());
                    self.findings.push(f);
                    proof {
                        assert(fviews_of(self.findings@) =~= fviews_of(before).push(
                            fetch_view(self.queue@[h as int].1.tv(), self.queue@[h as int].0.raw@, error@),
                        ));
                    }
                    self.head = h + 1;
                },
                Some(None) => {
                    if is_expanded(&self.expanded, &self.queue[h].0) {
                        self.head = h + 1;
                    } else {
                        let r = self.queue[h].0.clone();
                        let ghost before = self.expanded@;
                        self.expanded.push(self.queue[h].0.clone());
                        proof {
                            assert(expanded_keys(self.expanded@) =~= expanded_keys(before).push(key_of(r)));
                        }
                        self.nested_for = Some((self.queue[h].1.clone(), d));
                        self.head = h + 1;
                        return FetchStep::ReadNested(r);
                    }
                },
            }
        }
        FetchStep::Done
    }

    /// Record the outcome of the fetch just asked for: `None` when it
    /// succeeded, else the error.
    pub fn fetched(&mut self, failure: Option<String>)
        requires
            old(self).head < old(self).queue@.len(),
        ensures
            final(self).known@ == old(self).known@.push((old(self).queue@[old(self).head as int].0, failure)),
            final(self).queue == old(self).queue,
            final(self).head == old(self).head,
            final(self).expanded == old(self).expanded,
            final(self).findings == old(self).findings,
            final(self).nested_for == old(self).nested_for,
    {
        let r = self.queue[self.head].0.clone();
        self.known.push((r, failure));
    }

    /// Queue the references nested in the reference just read, one level
    /// deeper, under the same target.
    pub fn nested(&mut self, remotes: Vec<RemoteRef>)
        requires
            old(self).nested_for is Some,
            pending_depth(old(self).nested_for) < MAX_USES_DEPTH,
        ensures
            final(self).queue@.len() == old(self).queue@.len() + remotes@.len(),
            final(self).queue@.take(old(self).queue@.len() as int) == old(self).queue@,
            forall|i: int| 0 <= i < remotes@.len() ==> (#[trigger] final(self).queue@[old(self).queue@.len() + i]) == (
                remotes@[i],
                pending_target(old(self).nested_for),
                (pending_depth(old(self).nested_for) + 1) as usize,
            ),
            final(self).head == old(self).head,
            final(self).known == old(self).known,
            final(self).expanded == old(self).expanded,
            final(self).findings == old(self).findings,
            final(self).nested_for is None,
    {
        let (t, d) = match self.nested_for.take() {
            Some(x) => x,
            None => {
                return;
            },
        };
        let ghost start = self.queue@;
        let mut rest = remotes;
        let ghost all = rest@;
        let n = rest.len();
        let mut i: usize = 0;
        while i < n
            invariant
                i <= n == all.len(),
                rest@ == all.skip(i as int),
                d < MAX_USES_DEPTH,
                self.queue@.len() == start.len() + i,
                self.queue@.take(start.len() as int) == start,
                forall|k: int| 0 <= k < i ==> (#[trigger] self.queue@[start.len() + k]) == (all[k], t, (d + 1) as usize),
                self.nested_for is None,
                self.head == old(self).head,
                self.known == old(self).known,
                self.expanded == old(self).expanded,
                self.findings == old(self).findings,
            decreases n - i,
        {
            let r = rest.remove(0);
            proof {
                assert(all.skip(i + 1) =~= all.skip(i as int).drop_first());
            }
            let ghost before = self.queue@;
            self.queue.push((r, t.clone(), d + 1));
            proof {
                assert(self.queue@.take(start.len() as int) =~= before.take(start.len() as int));
            }
            i += 1;
        }
    }
}

/// The target of the reference being read.
pub open spec fn pending_target(p: Option<(FindingTarget, usize)>) -> FindingTarget {
    match p {
        Some((t, _)) => t,
        None => vstd::pervasive::arbitrary(),
    }
}

/// The depth of the reference being read.
pub open spec fn pending_depth(p: Option<(FindingTarget, usize)>) -> nat {
    match p {
        Some((_, d)) => d as nat,
        None => 0,
    }
}

/// The views of findings.
pub open spec fn fviews_of(fs: Seq<Finding>) -> Seq<FindingView> {
    fs.map_values(|f: Finding| fview(f))
}

/// A reference is downloaded at most once per fetch: one whose outcome is
/// known is never asked for again.
pub proof fn lemma_fetched_once(
    queue: Seq<(RemoteRef, FindingTarget, usize)>,
    head: int,
    known: Seq<(RemoteRef, Option<String>)>,
    expanded: Seq<RemoteKey>,
    findings: Seq<FindingView>,
    k: RemoteKey,
)
    requires
        known_outcome(known, k) is Some,
    ensures
        advance(queue, head, known, expanded, findings).3 != StepView::Fetch(k),
    decreases queue.len() - head,
{
    if 0 <= head < queue.len() {
        let (r, t, d) = queue[head];
        if d >= MAX_USES_DEPTH {
            lemma_fetched_once(queue, head + 1, known, expanded, findings, k);
        } else {
            match known_outcome(known, key_of(r)) {
                None => {},
                Some(Some(e)) => lemma_fetched_once(queue, head + 1, known, expanded, findings.push(fetch_view(t.tv(), r.raw@, e)), k),
                Some(None) => if expanded.contains(key_of(r)) {
                    lemma_fetched_once(queue, head + 1, known, expanded, findings, k);
                },
            }
        }
    }
}

proof fn lemma_known_extends(known: Seq<(RemoteRef, Option<String>)>, more: Seq<(RemoteRef, Option<String>)>, k: RemoteKey)
    requires
        known_outcome(known, k) is Some,
    ensures
        known_outcome(known + more, k) == known_outcome(known, k),
    decreases known.len(),
{
    assert((known + more)[0] == known[0]);
    if key_of(known[0].0) != k {
        assert((known + more).drop_first() =~= known.drop_first() + more);
        lemma_known_extends(known.drop_first(), more, k);
    }
}

/// A reference is fetched at most once per run: once its outcome is
/// recorded, no later step asks for it again, whatever is recorded after.
pub proof fn lemma_fetched_never_again(
    queue: Seq<(RemoteRef, FindingTarget, usize)>,
    head: int,
    known: Seq<(RemoteRef, Option<String>)>,
    more: Seq<(RemoteRef, Option<String>)>,
    expanded: Seq<RemoteKey>,
    findings: Seq<FindingView>,
    k: RemoteKey,
)
    requires
        known_outcome(known, k) is Some,
    ensures
        advance(queue, head, known + more, expanded, findings).3 != StepView::Fetch(k),
{
    lemma_known_extends(known, more, k);
    lemma_fetched_once(queue, head, known + more, expanded, findings, k);
}

/// Recording a fetch outcome makes it known.
pub proof fn lemma_recorded_known(known: Seq<(RemoteRef, Option<String>)>, r: RemoteRef, failure: Option<String>)
    ensures
        known_outcome(known.push((r, failure)), key_of(r)) is Some,
    decreases known.len(),
{
    if known.len() > 0 && key_of(known[0].0) != key_of(r) {
        assert(known.push((r, failure)).drop_first() =~= known.drop_first().push((r, failure)));
        lemma_recorded_known(known.drop_first(), r, failure);
    }
}

/// Nested references are read only above the depth limit, so following them
/// stops.
pub proof fn lemma_nested_depth_bounded(
    queue: Seq<(RemoteRef, FindingTarget, usize)>,
    head: int,
    known: Seq<(RemoteRef, Option<String>)>,
    expanded: Seq<RemoteKey>,
    findings: Seq<FindingView>,
)
    ensures
        advance(queue, head, known, expanded, findings).3 matches StepView::ReadNested(_, _, d) ==> d < MAX_USES_DEPTH,
    decreases queue.len() - head,
{
    if 0 <= head < queue.len() {
        let (r, t, d) = queue[head];
        if d >= MAX_USES_DEPTH {
            lemma_nested_depth_bounded(queue, head + 1, known, expanded, findings);
        } else {
            match known_outcome(known, key_of(r)) {
                None => {},
                Some(Some(e)) => lemma_nested_depth_bounded(queue, head + 1, known, expanded, findings.push(fetch_view(t.tv(), r.raw@, e))),
                Some(None) => if expanded.contains(key_of(r)) {
                    lemma_nested_depth_bounded(queue, head + 1, known, expanded, findings);
                },
            }
        }
    }
}

/// The nested references of a reference are read once: a reference already
/// read is not read again.
pub proof fn lemma_read_once(
    queue: Seq<(RemoteRef, FindingTarget, usize)>,
    head: int,
    known: Seq<(RemoteRef, Option<String>)>,
    expanded: Seq<RemoteKey>,
    findings: Seq<FindingView>,
    k: RemoteKey,
)
    requires
        expanded.contains(k),
    ensures
        !(advance(queue, head, known, expanded, findings).3 matches StepView::ReadNested(k2, _, _) && k2 == k),
    decreases queue.len() - head,
{
    if 0 <= head < queue.len() {
        let (r, t, d) = queue[head];
        if d >= MAX_USES_DEPTH {
            lemma_read_once(queue, head + 1, known, expanded, findings, k);
        } else {
            match known_outcome(known, key_of(r)) {
                None => {},
                Some(Some(e)) => lemma_read_once(queue, head + 1, known, expanded, findings.push(fetch_view(t.tv(), r.raw@, e)), k),
                Some(None) => if expanded.contains(key_of(r)) {
                    lemma_read_once(queue, head + 1, known, expanded, findings, k);
                },
            }
        }
    }
}

} // verus!
