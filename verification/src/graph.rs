//! The job dependency graph of a normalized [`WorkflowFile`]: one node per
//! instance, an edge from every instance of a needed job to every instance of
//! the job that needs it. `needs:` cycles and dangling references come out as
//! findings, and the graph is returned either way.
//!
//! The graph itself is a `petgraph::Graph`; the library sees it through the
//! node weights and the edge list it was built with.

use vstd::prelude::*;

use petgraph::graph::NodeIndex;
use petgraph::Direction;
use petgraph::Graph;

use crate::findings::{cycle, missing_need, Finding, STarget, Severity,
    CYCLE_COACH_HEAD, CYCLE_COACH_TAIL, MISSING_NEED_COACH_1, MISSING_NEED_COACH_2, MISSING_NEED_COACH_3};
use crate::ir::{JobInstance, WorkflowFile};
use crate::smap::{lex_lt, lemma_lex_irreflexive, lemma_lex_transitive, lemma_lex_asymmetric,
    str_eq, str_lt, StrMap};
use crate::text::{join, views};

verus! {

broadcast use vstd::seq_lib::group_to_multiset_ensures;

#[verifier::external_type_specification]
#[verifier::external_body]
#[verifier::reject_recursive_types(N)]
#[verifier::reject_recursive_types(E)]
#[verifier::reject_recursive_types(Ty)]
#[verifier::reject_recursive_types(Ix)]
pub struct ExGraph<N, E, Ty, Ix>(Graph<N, E, Ty, Ix>);

#[verifier::external_type_specification]
#[verifier::external_body]
pub struct ExDirected(petgraph::Directed);

/// The node weights of `g`, by node index.
pub uninterp spec fn graph_nodes(g: Graph<String, ()>) -> Seq<Seq<char>>;

/// The edges of `g` as `(source, target)` node indices, in the order they
/// were added.
pub uninterp spec fn graph_edges(g: Graph<String, ()>) -> Seq<(int, int)>;

/// The strongly connected components that `petgraph::algo::tarjan_scc` lists
/// for a directed graph of `n` nodes whose edges were added in the order
/// `edges`.
pub uninterp spec fn tarjan_components(n: nat, edges: Seq<(int, int)>) -> Seq<Seq<int>>;

/// `Graph::new`: a graph with no nodes and no edges.
#[verifier::external_body]
fn graph_new() -> (g: Graph<String, ()>)
    ensures
        graph_nodes(g) == Seq::<Seq<char>>::empty(),
        graph_edges(g) == Seq::<(int, int)>::empty(),
{
    Graph::new()
}

/// `Graph::add_node`: appends a node with `weight` and returns its index, the
/// old node count. It panics once the `u32` index space is used up, which the
/// `requires` rules out.
#[verifier::external_body]
fn graph_add_node(g: &mut Graph<String, ()>, weight: String) -> (i: usize)
    requires
        graph_nodes(*old(g)).len() < u32::MAX,
    ensures
        i == graph_nodes(*old(g)).len(),
        graph_nodes(*final(g)) == graph_nodes(*old(g)).push(weight@),
        graph_edges(*final(g)) == graph_edges(*old(g)),
{
    g.add_node(weight).index()
}

/// `Graph::add_edge`: appends the edge `a -> b`. It panics on a node that does
/// not exist or once the `u32` edge index space is used up; the `requires`
/// rules both out.
#[verifier::external_body]
fn graph_add_edge(g: &mut Graph<String, ()>, a: usize, b: usize)
    requires
        a < graph_nodes(*old(g)).len(),
        b < graph_nodes(*old(g)).len(),
        graph_edges(*old(g)).len() < u32::MAX,
    ensures
        graph_nodes(*final(g)) == graph_nodes(*old(g)),
        graph_edges(*final(g)) == graph_edges(*old(g)).push((a as int, b as int)),
{
    g.add_edge(NodeIndex::new(a), NodeIndex::new(b), ());
}

/// `Graph::node_count`: the number of nodes.
#[verifier::external_body]
fn graph_node_count(g: &Graph<String, ()>) -> (n: usize)
    ensures
        n == graph_nodes(*g).len(),
{
    g.node_count()
}

/// `Graph::contains_edge`: whether some edge runs from `a` to `b`.
#[verifier::external_body]
fn graph_contains_edge(g: &Graph<String, ()>, a: usize, b: usize) -> (r: bool)
    requires
        a < graph_nodes(*g).len(),
        b < graph_nodes(*g).len(),
    ensures
        r == graph_edges(*g).contains((a as int, b as int)),
{
    g.contains_edge(NodeIndex::new(a), NodeIndex::new(b))
}

/// Indexing a `Graph` by node: the weight of node `a`.
#[verifier::external_body]
fn graph_weight(g: &Graph<String, ()>, a: usize) -> (w: &String)
    requires
        a < graph_nodes(*g).len(),
    ensures
        w@ == graph_nodes(*g)[a as int],
{
    &g[NodeIndex::new(a)]
}

/// `Graph::neighbors_directed` with `Direction::Incoming`: the source of every
/// edge into `a`, most recently added edge first, as petgraph documents for a
/// directed graph.
#[verifier::external_body]
fn graph_predecessors(g: &Graph<String, ()>, a: usize) -> (r: Vec<usize>)
    requires
        a < graph_nodes(*g).len(),
    ensures
        r@.map_values(|x: usize| x as int) == incoming(graph_edges(*g), a as int),
{
    let mut out = Vec::new();
    for p in g.neighbors_directed(NodeIndex::new(a), Direction::Incoming) {
        out.push(p.index());
    }
    out
}

/// `p` is a path of `edges`: an edge from each node to the next.
pub open spec fn is_path(edges: Seq<(int, int)>, p: Seq<int>) -> bool {
    p.len() > 0 && forall|i: int| 0 <= i < p.len() - 1 ==> edges.contains((#[trigger] p[i], p[i + 1]))
}

/// A path of `edges` leads from `u` to `v` (the empty path from a node to
/// itself included).
pub open spec fn reaches(edges: Seq<(int, int)>, u: int, v: int) -> bool {
    exists|p: Seq<int>| #[trigger] is_path(edges, p) && p[0] == u && p.last() == v
}

/// `v` is in one of `comps`.
pub open spec fn in_some(comps: Seq<Seq<int>>, v: int) -> bool {
    exists|i: int| 0 <= i < comps.len() && #[trigger] comps[i].contains(v)
}

/// `comps` are the strongly connected components of the graph with nodes
/// `0..n` and edges `edges`: every node is in exactly one of them, the nodes
/// of one reach each other, and a node that reaches a node of a component
/// and is reached from it belongs to that component.
pub open spec fn are_sccs(comps: Seq<Seq<int>>, n: nat, edges: Seq<(int, int)>) -> bool {
    &&& forall|i: int, j: int| 0 <= i < comps.len() && 0 <= j < comps[i].len() ==> 0 <= #[trigger] comps[i][j] < n
    &&& forall|v: int| 0 <= v < n ==> #[trigger] in_some(comps, v)
    &&& forall|i: int, k: int, v: int|
        0 <= i < k < comps.len() && #[trigger] comps[i].contains(v) ==> !#[trigger] comps[k].contains(v)
    &&& forall|i: int, a: int, b: int|
        0 <= i < comps.len() && #[trigger] comps[i].contains(a) && #[trigger] comps[i].contains(b) ==> reaches(edges, a, b)
    &&& forall|i: int, a: int, b: int|
        0 <= i < comps.len() && #[trigger] comps[i].contains(a) && reaches(edges, a, b) && reaches(edges, b, a)
            ==> #[trigger] comps[i].contains(b)
}

/// `petgraph::algo::tarjan_scc`: the strongly connected components, each a
/// list of node indices of `g`, as its documentation promises.
#[verifier::external_body]
fn graph_sccs(g: &Graph<String, ()>) -> (r: Vec<Vec<usize>>)
    ensures
        r@.map_values(|c: Vec<usize>| c@.map_values(|x: usize| x as int)) == tarjan_components(
            graph_nodes(*g).len(),
            graph_edges(*g),
        ),
        forall|i: int, j: int|
            0 <= i < r.len() && 0 <= j < r[i].len() ==> #[trigger] r[i][j] < graph_nodes(*g).len(),
        are_sccs(r@.map_values(|c: Vec<usize>| c@.map_values(|x: usize| x as int)), graph_nodes(*g).len(), graph_edges(*g)),
{
    let mut out = Vec::new();
    for comp in petgraph::algo::tarjan_scc(g) {
        let mut ids = Vec::new();
        for n in comp {
            ids.push(n.index());
        }
        out.push(ids);
    }
    out
}

/// The sources of the edges into `a`, last edge first.
pub open spec fn incoming(edges: Seq<(int, int)>, a: int) -> Seq<int>
    decreases edges.len(),
{
    if edges.len() == 0 {
        Seq::empty()
    } else {
        let rest = incoming(edges.drop_last(), a);
        if edges.last().1 == a {
            seq![edges.last().0] + rest
        } else {
            rest
        }
    }
}

proof fn lemma_incoming_complete(edges: Seq<(int, int)>, a: int, e: int)
    requires
        0 <= e < edges.len(),
        edges[e].1 == a,
    ensures
        incoming(edges, a).contains(edges[e].0),
    decreases edges.len(),
{
    let init = edges.drop_last();
    let rest = incoming(init, a);
    let r = incoming(edges, a);
    if e < edges.len() - 1 {
        assert(init[e] == edges[e]);
        lemma_incoming_complete(init, a, e);
        let k = choose|k: int| 0 <= k < rest.len() && rest[k] == init[e].0;
        if edges.last().1 == a {
            assert(r[k + 1] == rest[k]);
        } else {
            assert(r[k] == rest[k]);
        }
    } else {
        assert(r[0] == edges[e].0);
    }
}

proof fn lemma_incoming_source(edges: Seq<(int, int)>, a: int, i: int) -> (e: int)
    requires
        0 <= i < incoming(edges, a).len(),
    ensures
        0 <= e < edges.len(),
        edges[e].1 == a,
        edges[e].0 == incoming(edges, a)[i],
    decreases edges.len(),
{
    let init = edges.drop_last();
    let rest = incoming(init, a);
    if edges.last().1 == a {
        if i == 0 {
            edges.len() - 1
        } else {
            let e = lemma_incoming_source(init, a, i - 1);
            assert(edges[e] == init[e]);
            e
        }
    } else {
        let e = lemma_incoming_source(init, a, i);
        assert(edges[e] == init[e]);
        e
    }
}

/// Every edge of `edges` joins two of the `n` nodes.
pub open spec fn edges_in_range(n: nat, edges: Seq<(int, int)>) -> bool {
    forall|k: int| 0 <= k < edges.len() ==> 0 <= (#[trigger] edges[k]).0 < n && 0 <= edges[k].1 < n
}

/// A job dependency graph: nodes are instance ids, edges run from a needed
/// instance to the instance that needs it.
pub struct JobGraph {
    pub graph: Graph<String, ()>,
    /// Instance id -> node index.
    pub nodes: StrMap<usize>,
}

impl JobGraph {
    /// The node weights, by node index.
    pub open spec fn node_names(&self) -> Seq<Seq<char>> {
        graph_nodes(self.graph)
    }

    /// The edges, in the order they were added.
    pub open spec fn edge_list(&self) -> Seq<(int, int)> {
        graph_edges(self.graph)
    }

    /// Every edge joins two nodes of the graph, and `nodes` maps each node's
    /// name to its index.
    pub open spec fn wf(&self) -> bool {
        &&& edges_in_range(self.node_names().len(), self.edge_list())
        &&& forall|i: int| 0 <= i < self.node_names().len() ==> #[trigger] self.nodes.get_spec(self.node_names()[i]) == Some(i as usize)
        &&& forall|k: Seq<char>| #[trigger] self.nodes.get_spec(k) is Some ==> self.node_names().contains(k)
    }
}

/// `s` is in ascending order.
pub open spec fn sorted_names(s: Seq<Seq<char>>) -> bool {
    forall|i: int, j: int| 0 <= i < j < s.len() ==> !lex_lt(#[trigger] s[j], #[trigger] s[i])
}

/// `s` holds the names `names` in ascending order.
pub open spec fn sorted_perm(s: Seq<Seq<char>>, names: Seq<Seq<char>>) -> bool {
    sorted_names(s) && s.to_multiset() == names.to_multiset()
}

/// `v` in ascending order.
pub(crate) fn sort_names(v: Vec<String>) -> (r: Vec<String>)
    ensures
        sorted_perm(views(r@), views(v@)),
{
    let mut r: Vec<String> = Vec::new();
    let mut i: usize = 0;
    while i < v.len()
        invariant
            i <= v.len(),
            sorted_names(views(r@)),
            views(r@).to_multiset() == views(v@.take(i as int)).to_multiset(),
        decreases v.len() - i,
    {
        let x = v[i].clone();
        let mut p: usize = 0;
        while p < r.len() && !str_lt(x.as_str(), r[p].as_str())
            invariant
                p <= r.len(),
                forall|q: int| 0 <= q < p ==> !lex_lt(x@, #[trigger] r@[q]@),
            decreases r.len() - p,
        {
            p += 1;
        }
        let ghost old_r = r@;
        r.insert(p, x);
        proof {
            assert(views(r@) =~= views(old_r).insert(p as int, x@));
            assert(views(v@.take(i + 1)) =~= views(v@.take(i as int)).push(v@[i as int]@));
            let s = views(r@);
            let o = views(old_r);
            assert forall|a: int, b: int| 0 <= a < b < s.len() implies !lex_lt(#[trigger] s[b], #[trigger] s[a]) by {
                if b < p {
                    assert(s[a] == o[a] && s[b] == o[b]);
                } else if b == p {
                    assert(s[a] == o[a] && s[b] == x@);
                } else if a == p {
                    assert(s[b] == o[b - 1] && s[a] == x@);
                    assert(p < old_r.len());
                    assert(lex_lt(x@, o[p as int]));
                    if lex_lt(o[b - 1], x@) {
                        if b - 1 == p {
                            lemma_lex_asymmetric(x@, o[p as int]);
                        } else {
                            lemma_lex_transitive(o[b - 1], x@, o[p as int]);
                        }
                    }
                } else if a < p {
                    assert(s[a] == o[a] && s[b] == o[b - 1]);
                } else {
                    assert(s[a] == o[a - 1] && s[b] == o[b - 1]);
                }
            }
        }
        i += 1;
    }
    assert(v@.take(v.len() as int) =~= v@);
    r
}


/// The instances of a workflow, by instance id in ascending order.
pub type Instances = Seq<(Seq<char>, JobInstance)>;

/// The instance ids, in ascending order: the nodes of the graph.
pub open spec fn instance_ids(insts: Instances) -> Seq<Seq<char>> {
    insts.map_values(|e: (Seq<char>, JobInstance)| e.0)
}

/// The positions below `m` of the instances of base job `base`, ascending.
pub open spec fn ups_upto(insts: Instances, base: Seq<char>, m: int) -> Seq<int>
    decreases m,
{
    if m <= 0 {
        Seq::empty()
    } else {
        let r = ups_upto(insts, base, m - 1);
        if insts[m - 1].1.base_id@ == base {
            r.push(m - 1)
        } else {
            r
        }
    }
}

/// The instances of base job `base`.
pub open spec fn ups(insts: Instances, base: Seq<char>) -> Seq<int> {
    ups_upto(insts, base, insts.len() as int)
}

/// The edges into instance `i` for the `needs` entries `needs`, entry by
/// entry: one from every instance of the needed job.
pub open spec fn need_edges(insts: Instances, i: int, needs: Seq<String>) -> Seq<(int, int)>
    decreases needs.len(),
{
    if needs.len() == 0 {
        Seq::empty()
    } else {
        need_edges(insts, i, needs.drop_last()) + ups(insts, needs.last()@).map_values(|u: int| (u, i))
    }
}

/// The edges of the instances below `m`, instance by instance.
pub open spec fn edges_upto(insts: Instances, m: int) -> Seq<(int, int)>
    decreases m,
{
    if m <= 0 {
        Seq::empty()
    } else {
        edges_upto(insts, m - 1) + need_edges(insts, m - 1, insts[m - 1].1.needs@)
    }
}

/// Every edge of the job graph, in the order they are added.
pub open spec fn job_edges(insts: Instances) -> Seq<(int, int)> {
    edges_upto(insts, insts.len() as int)
}

/// `acc` extended by the `(base, need)` pairs of `needs` that no instance
/// defines and that `acc` does not hold yet.
pub open spec fn note_missing(acc: Seq<(Seq<char>, Seq<char>)>, insts: Instances, base: Seq<char>, needs: Seq<String>)
    -> Seq<(Seq<char>, Seq<char>)>
    decreases needs.len(),
{
    if needs.len() == 0 {
        acc
    } else {
        let a = note_missing(acc, insts, base, needs.drop_last());
        let need = needs.last()@;
        if ups(insts, need).len() == 0 && !a.contains((base, need)) {
            a.push((base, need))
        } else {
            a
        }
    }
}

/// The distinct `(base job, missing need)` pairs of the instances below `m`,
/// in the order they are met.
pub open spec fn missing_upto(insts: Instances, m: int) -> Seq<(Seq<char>, Seq<char>)>
    decreases m,
{
    if m <= 0 {
        Seq::empty()
    } else {
        note_missing(missing_upto(insts, m - 1), insts, insts[m - 1].1.base_id@, insts[m - 1].1.needs@)
    }
}

/// The distinct `(base job, missing need)` pairs of the workflow.
pub open spec fn missing_pairs(insts: Instances) -> Seq<(Seq<char>, Seq<char>)> {
    missing_upto(insts, insts.len() as int)
}

/// A component is a cycle when it has several nodes or a node with an edge to
/// itself.
pub open spec fn is_cyclic(c: Seq<int>, edges: Seq<(int, int)>) -> bool {
    c.len() > 1 || exists|k: int| 0 <= k < c.len() && edges.contains((#[trigger] c[k], c[k]))
}

/// The cyclic components among the first `m` of `comps`, in order.
pub open spec fn cyclic_upto(comps: Seq<Seq<int>>, edges: Seq<(int, int)>, m: int) -> Seq<Seq<int>>
    decreases m,
{
    if m <= 0 {
        Seq::empty()
    } else {
        let r = cyclic_upto(comps, edges, m - 1);
        if is_cyclic(comps[m - 1], edges) {
            r.push(comps[m - 1])
        } else {
            r
        }
    }
}

/// `f` is the missing-need finding for job `job` of `file` naming `missing`.
pub open spec fn is_missing_need_finding(f: Finding, file: Seq<char>, job: Seq<char>, missing: Seq<char>) -> bool {
    &&& f.severity == Severity::Error
    &&& f.code@ == "GHA_MISSING_NEED"@
    &&& f.target.tv() == (STarget::Job { file, job })
    &&& f.message@ == "Job `"@ + job + "` needs `"@ + missing + "`, which doesn't exist in this workflow"@
    &&& f.coach@ == MISSING_NEED_COACH_1@ + job + MISSING_NEED_COACH_2@ + missing + MISSING_NEED_COACH_3@
}

/// `f` is the cycle finding of `file` listing `jobs`.
pub open spec fn is_cycle_finding(f: Finding, file: Seq<char>, jobs: Seq<Seq<char>>) -> bool {
    &&& f.severity == Severity::Error
    &&& f.code@ == "GHA_CYCLE"@
    &&& f.target.tv() == STarget::File(file)
    &&& f.message@ == "Dependency cycle detected among jobs: "@ + join(jobs, " -> "@)
    &&& f.coach@ == CYCLE_COACH_HEAD@ + join(jobs, " -> "@) + CYCLE_COACH_TAIL@
}

/// `f` is the cycle finding of `file` for component `c`: its nodes' names in
/// ascending order.
pub open spec fn is_cycle_of(f: Finding, file: Seq<char>, names: Seq<Seq<char>>, c: Seq<int>) -> bool {
    exists|js: Seq<Seq<char>>| sorted_perm(js, c.map_values(|x: int| names[x])) && #[trigger] is_cycle_finding(f, file, js)
}

/// `fs` are the missing-need findings of `file` for `pairs`, one for one.
pub open spec fn need_findings_are(fs: Seq<Finding>, file: Seq<char>, pairs: Seq<(Seq<char>, Seq<char>)>) -> bool {
    fs.len() == pairs.len() && forall|k: int|
        0 <= k < fs.len() ==> is_missing_need_finding(#[trigger] fs[k], file, pairs[k].0, pairs[k].1)
}

/// `fs` are the cycle findings of `file` for the cyclic ones of `comps`, in
/// order, in a graph with node names `names` and edges `edges`.
pub open spec fn cycle_findings_are(fs: Seq<Finding>, file: Seq<char>, names: Seq<Seq<char>>, edges: Seq<(int, int)>, comps: Seq<Seq<int>>) -> bool {
    let cs = cyclic_upto(comps, edges, comps.len() as int);
    fs.len() == cs.len() && forall|k: int| 0 <= k < fs.len() ==> is_cycle_of(#[trigger] fs[k], file, names, cs[k])
}

/// The components as lists of node indices.
pub open spec fn comp_views(s: Seq<Vec<usize>>) -> Seq<Seq<int>> {
    s.map_values(|c: Vec<usize>| c@.map_values(|x: usize| x as int))
}

/// The views of string pairs.
pub open spec fn pair_views(s: Seq<(String, String)>) -> Seq<(Seq<char>, Seq<char>)> {
    s.map_values(|p: (String, String)| (p.0@, p.1@))
}

proof fn lemma_ups_mono(insts: Instances, base: Seq<char>, a: int, b: int)
    requires
        0 <= a <= b,
    ensures
        ups_upto(insts, base, a).len() <= ups_upto(insts, base, b).len(),
    decreases b - a,
{
    if a < b {
        lemma_ups_mono(insts, base, a, b - 1);
    }
}

proof fn lemma_need_edges_mono(insts: Instances, i: int, needs: Seq<String>, j: int)
    requires
        0 <= j <= needs.len(),
    ensures
        need_edges(insts, i, needs.take(j)).len() <= need_edges(insts, i, needs).len(),
    decreases needs.len() - j,
{
    if j < needs.len() {
        lemma_need_edges_mono(insts, i, needs, j + 1);
        assert(needs.take(j + 1).drop_last() =~= needs.take(j));
    } else {
        assert(needs.take(j) =~= needs);
    }
}

proof fn lemma_edges_mono(insts: Instances, a: int, b: int)
    requires
        0 <= a <= b,
    ensures
        edges_upto(insts, a).len() <= edges_upto(insts, b).len(),
    decreases b - a,
{
    if a < b {
        lemma_edges_mono(insts, a, b - 1);
    }
}

/// Whether `reported` already holds the pair `(a, b)`.
fn pair_reported(reported: &Vec<(String, String)>, a: &str, b: &str) -> (r: bool)
    ensures
        r == pair_views(reported@).contains((a@, b@)),
{
    let ghost pv = pair_views(reported@);
    let mut k: usize = 0;
    while k < reported.len()
        invariant
            k <= reported.len(),
            pv == pair_views(reported@),
            forall|q: int| 0 <= q < k ==> pv[q] != (a@, b@),
        decreases reported.len() - k,
    {
        if str_eq(reported[k].0.as_str(), a) && str_eq(reported[k].1.as_str(), b) {
            assert(pv[k as int] == (a@, b@));
            return true;
        }
        k += 1;
    }
    false
}

/// One node per instance, in ascending instance id order, and the map from
/// instance id to node.
fn instance_nodes(insts: &StrMap<JobInstance>) -> (r: (Graph<String, ()>, StrMap<usize>))
    requires
        insts@.len() < u32::MAX,
    ensures
        graph_nodes(r.0) == instance_ids(insts@),
        graph_edges(r.0) == Seq::<(int, int)>::empty(),
        forall|i: int| 0 <= i < insts@.len() ==> #[trigger] r.1.get_spec(insts@[i].0) == Some(i as usize),
        forall|k: Seq<char>| #[trigger] r.1.get_spec(k) is Some ==> instance_ids(insts@).contains(k),
{
    let n = insts.len();
    let mut g = graph_new();
    let mut nodes: StrMap<usize> = StrMap::new();
    let mut i: usize = 0;
    while i < n
        invariant
            n == insts@.len() < u32::MAX,
            crate::smap::strictly_sorted(insts@),
            i <= n,
            graph_nodes(g) == instance_ids(insts@).take(i as int),
            graph_edges(g) == Seq::<(int, int)>::empty(),
            forall|k: int| 0 <= k < i ==> #[trigger] nodes.get_spec(insts@[k].0) == Some(k as usize),
            forall|q: Seq<char>| #[trigger] nodes.get_spec(q) is Some ==> instance_ids(insts@).take(i as int).contains(q),
        decreases n - i,
    {
        let id = insts.key_at(i);
        let ghost before = nodes;
        let idx = graph_add_node(&mut g, id.clone());
        nodes.insert(id.clone(), idx);
        proof {
            let ids = instance_ids(insts@);
            assert(ids.take(i + 1) =~= ids.take(i as int).push(ids[i as int]));
            assert forall|k: int| 0 <= k < i + 1 implies #[trigger] nodes.get_spec(insts@[k].0) == Some(k as usize) by {
                if k < i {
                    assert(lex_lt(insts@[k].0, insts@[i as int].0));
                    lemma_lex_irreflexive(insts@[k].0);
                    assert(before.get_spec(insts@[k].0) == Some(k as usize));
                }
            }
            assert forall|q: Seq<char>| #[trigger] nodes.get_spec(q) is Some implies ids.take(i + 1).contains(q) by {
                if q == id@ {
                    assert(ids.take(i + 1)[i as int] == q);
                } else {
                    assert(before.get_spec(q) is Some);
                    let w = choose|w: int| 0 <= w < i && ids.take(i as int)[w] == q;
                    assert(ids.take(i + 1)[w] == q);
                }
            }
        }
        i += 1;
    }
    proof {
        assert(instance_ids(insts@).take(n as int) =~= instance_ids(insts@));
    }
    (g, nodes)
}

/// Adds to `g` the edges of every instance's `needs:`, and returns the
/// missing-need findings of `file`.
fn add_need_edges(g: &mut Graph<String, ()>, insts: &StrMap<JobInstance>, file: &String) -> (fs: Vec<Finding>)
    requires
        graph_nodes(*old(g)) == instance_ids(insts@),
        graph_edges(*old(g)) == Seq::<(int, int)>::empty(),
        job_edges(insts@).len() < u32::MAX,
    ensures
        graph_nodes(*final(g)) == instance_ids(insts@),
        graph_edges(*final(g)) == job_edges(insts@),
        need_findings_are(fs@, file@, missing_pairs(insts@)),
{
    let n = insts.len();
    let mut reported: Vec<(String, String)> = Vec::new();
    let mut fs: Vec<Finding> = Vec::new();
    let mut i: usize = 0;
    proof {
        assert(pair_views(reported@) =~= Seq::<(Seq<char>, Seq<char>)>::empty());
    }
    while i < n
        invariant
            n == insts@.len(),
            i <= n,
            graph_nodes(*g) == instance_ids(insts@),
            graph_edges(*g) == edges_upto(insts@, i as int),
            job_edges(insts@).len() < u32::MAX,
            pair_views(reported@) == missing_upto(insts@, i as int),
            need_findings_are(fs@, file@, pair_views(reported@)),
        decreases n - i,
    {
        let inst = insts.value_at(i);
        let needs = &inst.needs;
        let ghost pre_edges = edges_upto(insts@, i as int);
        let ghost pre_missing = missing_upto(insts@, i as int);
        proof {
            lemma_edges_mono(insts@, i + 1, n as int);
            assert(needs@.take(0) =~= Seq::<String>::empty());
        }
        let mut j: usize = 0;
        while j < needs.len()
            invariant
                n == insts@.len(),
                i < n,
                j <= needs.len(),
                *inst == insts@[i as int].1,
                needs == &inst.needs,
                graph_nodes(*g) == instance_ids(insts@),
                pre_edges + need_edges(insts@, i as int, needs@) == edges_upto(insts@, i + 1),
                edges_upto(insts@, i + 1).len() < u32::MAX,
                graph_edges(*g) == pre_edges + need_edges(insts@, i as int, needs@.take(j as int)),
                pair_views(reported@) == note_missing(pre_missing, insts@, inst.base_id@, needs@.take(j as int)),
                need_findings_are(fs@, file@, pair_views(reported@)),
            decreases needs.len() - j,
        {
            let need = &needs[j];
            let mut found = false;
            let ghost pre_j = graph_edges(*g);
            proof {
                lemma_need_edges_mono(insts@, i as int, needs@, j + 1);
                assert(needs@.take(j + 1).drop_last() =~= needs@.take(j as int));
                assert(needs@.take(j + 1).last() == needs@[j as int]);
            }
            let mut u: usize = 0;
            while u < n
                invariant
                    n == insts@.len(),
                    i < n,
                    u <= n,
                    graph_nodes(*g) == instance_ids(insts@),
                    graph_edges(*g) == pre_j + ups_upto(insts@, need@, u as int).map_values(|x: int| (x, i as int)),
                    found == (ups_upto(insts@, need@, u as int).len() > 0),
                    pre_j.len() + ups(insts@, need@).len() < u32::MAX,
                decreases n - u,
            {
                let ghost before = ups_upto(insts@, need@, u as int);
                if str_eq(insts.value_at(u).base_id.as_str(), need.as_str()) {
                    proof {
                        lemma_ups_mono(insts@, need@, u + 1, n as int);
                    }
                    graph_add_edge(g, u, i);
                    found = true;
                    proof {
                        assert(before.push(u as int).map_values(|x: int| (x, i as int)) =~= before.map_values(
                            |x: int| (x, i as int),
                        ).push((u as int, i as int)));
                    }
                }
                u += 1;
            }
            if !found {
                if !pair_reported(&reported, inst.base_id.as_str(), need.as_str()) {
                    let ghost pv = pair_views(reported@);
                    let ghost fv = fs@;
                    reported.push((inst.base_id.clone(), need.clone()));
                    let f = missing_need(file.clone(), inst.base_id.as_str(), need.as_str());
                    fs.push(f);
                    proof {
                        assert(pair_views(reported@) =~= pv.push((inst.base_id@, need@)));
                        assert forall|k: int| 0 <= k < fs@.len() implies is_missing_need_finding(
                            #[trigger] fs@[k],
                            file@,
                            pair_views(reported@)[k].0,
                            pair_views(reported@)[k].1,
                        ) by {
                            if k < fv.len() {
                                assert(fs@[k] == fv[k]);
                                assert(pair_views(reported@)[k] == pv[k]);
                            }
                        }
                    }
                }
            }
            proof {
                assert(graph_edges(*g) =~= pre_edges + need_edges(insts@, i as int, needs@.take(j + 1)));
            }
            j += 1;
        }
        proof {
            assert(needs@.take(needs@.len() as int) =~= needs@);
        }
        i += 1;
    }
    fs
}

/// The cycle findings of `file` for the components `sccs` of `g`: one for
/// each component with several nodes or a node with an edge to itself,
/// listing the component's node names in ascending order.
pub fn cycle_findings(file: &String, g: &Graph<String, ()>, sccs: &Vec<Vec<usize>>) -> (fs: Vec<Finding>)
    requires
        forall|i: int, j: int| 0 <= i < sccs.len() && 0 <= j < sccs[i].len() ==> #[trigger] sccs[i][j] < graph_nodes(*g).len(),
    ensures
        cycle_findings_are(fs@, file@, graph_nodes(*g), graph_edges(*g), comp_views(sccs@)),
{
    let ghost comps = comp_views(sccs@);
    let ghost names = graph_nodes(*g);
    let ghost edges = graph_edges(*g);
    let mut fs: Vec<Finding> = Vec::new();
    let mut c: usize = 0;
    while c < sccs.len()
        invariant
            c <= sccs.len(),
            comps == comp_views(sccs@),
            names == graph_nodes(*g),
            edges == graph_edges(*g),
            forall|i: int, j: int| 0 <= i < sccs.len() && 0 <= j < sccs[i].len() ==> #[trigger] sccs[i][j] < graph_nodes(*g).len(),
            fs@.len() == cyclic_upto(comps, edges, c as int).len(),
            forall|k: int| 0 <= k < fs@.len() ==> is_cycle_of(#[trigger] fs@[k], file@, names, cyclic_upto(comps, edges, c as int)[k]),
        decreases sccs.len() - c,
    {
        let comp = &sccs[c];
        let ghost cv = comps[c as int];
        proof {
            assert(cv == comp@.map_values(|x: usize| x as int));
        }
        let mut cyclic = comp.len() > 1;
        let mut k: usize = 0;
        while k < comp.len()
            invariant
                k <= comp.len(),
                comp == &sccs[c as int],
                cv == comp@.map_values(|x: usize| x as int),
                forall|j: int| 0 <= j < comp.len() ==> #[trigger] comp[j] < graph_nodes(*g).len(),
                edges == graph_edges(*g),
                cyclic == (comp.len() > 1 || exists|q: int| 0 <= q < k && edges.contains((#[trigger] cv[q], cv[q]))),
            decreases comp.len() - k,
        {
            if graph_contains_edge(g, comp[k], comp[k]) {
                assert(edges.contains((cv[k as int], cv[k as int])));
                cyclic = true;
            }
            k += 1;
        }
        if cyclic {
            let mut jobs: Vec<String> = Vec::new();
            let mut k: usize = 0;
            while k < comp.len()
                invariant
                    k <= comp.len(),
                    comp == &sccs[c as int],
                    cv == comp@.map_values(|x: usize| x as int),
                    names == graph_nodes(*g),
                    forall|j: int| 0 <= j < comp.len() ==> #[trigger] comp[j] < graph_nodes(*g).len(),
                    views(jobs@) == cv.take(k as int).map_values(|x: int| names[x]),
                decreases comp.len() - k,
            {
                let w = graph_weight(g, comp[k]);
                let ghost before = views(jobs@);
                jobs.push(w.clone());
                proof {
                    assert(views(jobs@) =~= before.push(w@));
                    assert(cv.take(k + 1) =~= cv.take(k as int).push(cv[k as int]));
                    assert(cv.take(k + 1).map_values(|x: int| names[x]) =~= cv.take(k as int).map_values(|x: int| names[x]).push(names[cv[k as int]]));
                }
                k += 1;
            }
            proof {
                assert(cv.take(comp.len() as int) =~= cv);
            }
            let sorted = sort_names(jobs);
            let f = cycle(file.clone(), sorted.as_slice());
            let ghost fv = fs@;
            fs.push(f);
            proof {
                assert(is_cycle_finding(f, file@, views(sorted@)));
                assert(is_cycle_of(f, file@, names, cv));
                assert forall|q: int| 0 <= q < fs@.len() implies is_cycle_of(#[trigger] fs@[q], file@, names, cyclic_upto(comps, edges, c + 1)[q]) by {
                    if q < fv.len() {
                        assert(fs@[q] == fv[q]);
                    }
                }
            }
        }
        c += 1;
    }
    fs
}

/// Build the job graph of `wf`: one node per instance, in ascending instance
/// id order, and for every `needs:` entry of an instance an edge from each
/// instance of the needed job. Returns the missing-need findings (one per
/// distinct base job and missing name) followed by a cycle finding for every
/// strongly connected component that is a cycle. The graph is returned even
/// when it is cyclic or references are missing.
pub fn build_job_graph(wf: &WorkflowFile) -> (r: (JobGraph, Vec<Finding>))
    requires
        wf.instances@.len() < u32::MAX,
        job_edges(wf.instances@).len() < u32::MAX,
    ensures
        r.0.wf(),
        r.0.node_names() == instance_ids(wf.instances@),
        r.0.edge_list() == job_edges(wf.instances@),
        r.1@.len() >= missing_pairs(wf.instances@).len(),
        need_findings_are(r.1@.take(missing_pairs(wf.instances@).len() as int), wf.path@, missing_pairs(wf.instances@)),
        cycle_findings_are(
            r.1@.skip(missing_pairs(wf.instances@).len() as int),
            wf.path@,
            instance_ids(wf.instances@),
            job_edges(wf.instances@),
            tarjan_components(wf.instances@.len(), job_edges(wf.instances@)),
        ),
        are_sccs(tarjan_components(wf.instances@.len(), job_edges(wf.instances@)), instance_ids(wf.instances@).len(),
            job_edges(wf.instances@)),
{
    let (mut graph, nodes) = instance_nodes(&wf.instances);
    let mut findings = add_need_edges(&mut graph, &wf.instances, &wf.path);
    let sccs = graph_sccs(&graph);
    let mut cycles = cycle_findings(&wf.path, &graph, &sccs);
    let ghost missing = findings@;
    let ghost cyc = cycles@;
    findings.append(&mut cycles);
    proof {
        let insts = wf.instances@;
        assert(findings@.take(missing.len() as int) =~= missing);
        assert(findings@.skip(missing.len() as int) =~= cyc);
        assert forall|k: int| 0 <= k < job_edges(insts).len() implies 0 <= (#[trigger] job_edges(insts)[k]).0 < insts.len()
            && 0 <= job_edges(insts)[k].1 < insts.len() by {
            lemma_job_edges_in_range(insts, insts.len() as int, k);
        }
        assert forall|i: int| 0 <= i < instance_ids(insts).len() implies #[trigger] nodes.get_spec(instance_ids(insts)[i]) == Some(i as usize) by {
            assert(instance_ids(insts)[i] == insts[i].0);
        }
    }
    (JobGraph { graph, nodes }, findings)
}

proof fn lemma_ups_in_range(insts: Instances, base: Seq<char>, m: int, k: int)
    requires
        0 <= k < ups_upto(insts, base, m).len(),
    ensures
        0 <= ups_upto(insts, base, m)[k] < m,
    decreases m,
{
    if m > 0 {
        let r = ups_upto(insts, base, m - 1);
        if k < r.len() {
            lemma_ups_in_range(insts, base, m - 1, k);
            if insts[m - 1].1.base_id@ == base {
                assert(r.push(m - 1)[k] == r[k]);
            }
        }
    }
}

proof fn lemma_need_edges_in_range(insts: Instances, i: int, needs: Seq<String>, k: int)
    requires
        0 <= i < insts.len(),
        0 <= k < need_edges(insts, i, needs).len(),
    ensures
        0 <= need_edges(insts, i, needs)[k].0 < insts.len(),
        need_edges(insts, i, needs)[k].1 == i,
    decreases needs.len(),
{
    let init = need_edges(insts, i, needs.drop_last());
    if k < init.len() {
        lemma_need_edges_in_range(insts, i, needs.drop_last(), k);
    } else {
        lemma_ups_in_range(insts, needs.last()@, insts.len() as int, k - init.len());
    }
}

proof fn lemma_job_edges_in_range(insts: Instances, m: int, k: int)
    requires
        0 <= m <= insts.len(),
        0 <= k < edges_upto(insts, m).len(),
    ensures
        0 <= edges_upto(insts, m)[k].0 < insts.len(),
        0 <= edges_upto(insts, m)[k].1 < insts.len(),
    decreases m,
{
    let init = edges_upto(insts, m - 1);
    if k < init.len() {
        lemma_job_edges_in_range(insts, m - 1, k);
    } else {
        lemma_need_edges_in_range(insts, m - 1, insts[m - 1].1.needs@, k - init.len());
    }
}

/// Node `v` of the `n` is not placed yet (`done`), and every edge into it
/// comes from a placed node.
pub open spec fn ready(n: nat, edges: Seq<(int, int)>, done: Set<int>, v: int) -> bool {
    &&& 0 <= v < n
    &&& !done.contains(v)
    &&& forall|e: int| 0 <= e < edges.len() && (#[trigger] edges[e]).1 == v ==> done.contains(edges[e].0)
}

/// The ready nodes below `m`, ascending.
pub open spec fn ready_upto(n: nat, edges: Seq<(int, int)>, done: Set<int>, m: int) -> Seq<int>
    decreases m,
{
    if m <= 0 {
        Seq::empty()
    } else {
        let r = ready_upto(n, edges, done, m - 1);
        if ready(n, edges, done, m - 1) {
            r.push(m - 1)
        } else {
            r
        }
    }
}

/// The nodes placed in the first `k` levels: level `k` holds the nodes that
/// are ready once the earlier levels are placed.
pub open spec fn placed(n: nat, edges: Seq<(int, int)>, k: nat) -> Set<int>
    decreases k,
{
    if k == 0 {
        Set::empty()
    } else {
        let d = placed(n, edges, (k - 1) as nat);
        Set::new(|v: int| d.contains(v) || ready(n, edges, d, v))
    }
}

/// The nodes of level `k`, ascending: those with no edge in from a node that
/// is not in an earlier level.
pub open spec fn layer(n: nat, edges: Seq<(int, int)>, k: nat) -> Seq<int> {
    ready_upto(n, edges, placed(n, edges, k), n as int)
}

/// `levels` are the levels of the graph with node names `names` and edges
/// `edges`, each level's names in ascending order; it stops at the first
/// empty level, so nodes on or behind a cycle are in none.
pub open spec fn levels_are(levels: Seq<Vec<String>>, names: Seq<Seq<char>>, edges: Seq<(int, int)>) -> bool {
    let n = names.len();
    &&& forall|k: int| 0 <= k < levels.len() ==> (#[trigger] layer(n, edges, k as nat)).len() > 0
    &&& forall|k: int| 0 <= k < levels.len() ==> sorted_perm(
        views((#[trigger] levels[k])@),
        layer(n, edges, k as nat).map_values(|v: int| names[v]),
    )
    &&& layer(n, edges, levels.len()).len() == 0
}

/// The number of `true` entries.
pub open spec fn count_true(s: Seq<bool>) -> nat
    decreases s.len(),
{
    if s.len() == 0 {
        0
    } else {
        count_true(s.drop_last()) + if s.last() {
            1nat
        } else {
            0nat
        }
    }
}

proof fn lemma_count_true_bound(s: Seq<bool>)
    ensures
        count_true(s) <= s.len(),
    decreases s.len(),
{
    if s.len() > 0 {
        lemma_count_true_bound(s.drop_last());
    }
}

proof fn lemma_count_true_set(s: Seq<bool>, v: int)
    requires
        0 <= v < s.len(),
        !s[v],
    ensures
        count_true(s.update(v, true)) == count_true(s) + 1,
    decreases s.len(),
{
    if v == s.len() - 1 {
        assert(s.update(v, true).drop_last() =~= s.drop_last());
    } else {
        lemma_count_true_set(s.drop_last(), v);
        assert(s.update(v, true).drop_last() =~= s.drop_last().update(v, true));
    }
}

proof fn lemma_ready_upto(n: nat, edges: Seq<(int, int)>, done: Set<int>, m: int, x: int)
    requires
        0 <= m,
    ensures
        ready_upto(n, edges, done, m).contains(x) <==> (x < m && ready(n, edges, done, x)),
    decreases m,
{
    if m > 0 {
        lemma_ready_upto(n, edges, done, m - 1, x);
        let r = ready_upto(n, edges, done, m - 1);
        if ready(n, edges, done, m - 1) {
            if x == m - 1 {
                assert(r.push(m - 1)[r.len() as int] == x);
            }
            let rp = r.push(m - 1);
            if rp.contains(x) && x != m - 1 {
                let w = choose|w: int| 0 <= w < rp.len() && rp[w] == x;
                assert(r[w] == x);
            }
            if r.contains(x) {
                let w = choose|w: int| 0 <= w < r.len() && r[w] == x;
                assert(r.push(m - 1)[w] == x);
            }
        }
    }
}

/// Group the graph's node names into levels for tree rendering: level 0
/// holds the nodes with no incoming edge, and each next level the nodes
/// whose incoming edges all come from earlier levels. Names within a level
/// are sorted. Nodes on a cycle, or reachable from one, are in no level.
pub fn topo_levels(graph: &JobGraph) -> (levels: Vec<Vec<String>>)
    requires
        graph.wf(),
    ensures
        levels_are(levels@, graph.node_names(), graph.edge_list()),
{
    let g = &graph.graph;
    let ghost names = graph_nodes(*g);
    let ghost edges = graph_edges(*g);
    let n = graph_node_count(g);
    let ghost nn = n as nat;
    let mut done: Vec<bool> = Vec::new();
    while done.len() < n
        invariant
            done.len() <= n,
            forall|v: int| 0 <= v < done.len() ==> !(#[trigger] done@[v]),
        decreases n - done.len(),
    {
        done.push(false);
    }
    proof {
        assert(count_true(done@) == 0) by {
            assert forall|m: int| 0 <= m <= done.len() implies #[trigger] count_true(done@.take(m)) == 0 by {
                lemma_take_all_false(done@, m);
            }
            assert(done@.take(n as int) =~= done@);
        }
    }
    let mut placed_count: usize = 0;
    let mut levels: Vec<Vec<String>> = Vec::new();
    let mut go = true;
    while go
        invariant
            graph.wf(),
            g == &graph.graph,
            names == graph_nodes(*g),
            edges == graph_edges(*g),
            n == names.len(),
            nn == n,
            done.len() == n,
            forall|v: int| 0 <= v < n ==> (#[trigger] done@[v]) == placed(nn, edges, levels.len() as nat).contains(v),
            placed_count == count_true(done@),
            placed_count <= n,
            forall|k: int| 0 <= k < levels.len() ==> (#[trigger] layer(nn, edges, k as nat)).len() > 0,
            forall|k: int| 0 <= k < levels.len() ==> sorted_perm(
                views((#[trigger] levels@[k])@),
                layer(nn, edges, k as nat).map_values(|v: int| names[v]),
            ),
            !go ==> layer(nn, edges, levels.len() as nat).len() == 0,
        decreases (n - placed_count) as int + if go { 1int } else { 0int },
    {
        let ghost d = placed(nn, edges, levels.len() as nat);
        let mut cur: Vec<usize> = Vec::new();
        let mut v: usize = 0;
        while v < n
            invariant
                graph.wf(),
                g == &graph.graph,
                names == graph_nodes(*g),
                edges == graph_edges(*g),
                n == names.len(),
                nn == n,
                v <= n,
                done.len() == n,
                forall|x: int| 0 <= x < n ==> (#[trigger] done@[x]) == d.contains(x),
                cur@.map_values(|x: usize| x as int) == ready_upto(nn, edges, d, v as int),
                forall|a: int| 0 <= a < cur.len() ==> #[trigger] cur@[a] < v,
                forall|a: int, b: int| 0 <= a < b < cur.len() ==> #[trigger] cur@[a] < #[trigger] cur@[b],
            decreases n - v,
        {
            if !done[v] {
                let ps = graph_predecessors(g, v);
                let ghost inc = incoming(edges, v as int);
                let mut all = true;
                let mut q: usize = 0;
                while q < ps.len()
                    invariant
                        graph.wf(),
                        g == &graph.graph,
                        names == graph_nodes(*g),
                        edges == graph_edges(*g),
                        n == names.len(),
                        v < n,
                        q <= ps.len(),
                        done.len() == n,
                        ps@.map_values(|x: usize| x as int) == inc,
                        inc == incoming(edges, v as int),
                        forall|x: int| 0 <= x < n ==> (#[trigger] done@[x]) == d.contains(x),
                        all == (forall|r: int| 0 <= r < q ==> d.contains(#[trigger] inc[r])),
                    decreases ps.len() - q,
                {
                    proof {
                        assert(inc[q as int] == ps@[q as int] as int);
                        let e = lemma_incoming_source(edges, v as int, q as int);
                        assert(edges[e] == graph.edge_list()[e]);
                        assert(0 <= edges[e].0 < n);
                    }
                    if !done[ps[q]] {
                        all = false;
                    }
                    q += 1;
                }
                proof {
                    if all {
                        assert forall|e: int| 0 <= e < edges.len() && (#[trigger] edges[e]).1 == v as int implies d.contains(edges[e].0) by {
                            lemma_incoming_complete(edges, v as int, e);
                            let r = choose|r: int| 0 <= r < inc.len() && inc[r] == edges[e].0;
                        }
                    } else {
                        let r = choose|r: int| 0 <= r < ps.len() && !d.contains(#[trigger] inc[r]);
                        let e = lemma_incoming_source(edges, v as int, r);
                        assert(!ready(nn, edges, d, v as int));
                    }
                }
                if all {
                    let ghost before = cur@;
                    cur.push(v);
                    proof {
                        assert(cur@.map_values(|x: usize| x as int) =~= before.map_values(|x: usize| x as int).push(v as int));
                    }
                }
            }
            v += 1;
        }
        let ghost cv = cur@.map_values(|x: usize| x as int);
        proof {
            assert(cv == layer(nn, edges, levels.len() as nat));
        }
        if cur.len() == 0 {
            go = false;
        } else {
            let ghost old_done = done@;
            let mut j: usize = 0;
            while j < cur.len()
                invariant
                    j <= cur.len(),
                    done.len() == n,
                    cv == cur@.map_values(|x: usize| x as int),
                    cv == ready_upto(nn, edges, d, n as int),
                    forall|a: int| 0 <= a < cur.len() ==> #[trigger] cur@[a] < n,
                    forall|a: int, b: int| 0 <= a < b < cur.len() ==> #[trigger] cur@[a] < #[trigger] cur@[b],
                    old_done.len() == n,
                    forall|x: int| 0 <= x < n ==> (#[trigger] old_done[x]) == d.contains(x),
                    forall|x: int| 0 <= x < n ==> (#[trigger] done@[x]) == (d.contains(x) || cv.take(j as int).contains(x)),
                    placed_count + j == count_true(done@),
                    placed_count <= n,
                decreases cur.len() - j,
            {
                let x = cur[j];
                proof {
                    assert(cv[j as int] == x as int);
                    lemma_ready_upto(nn, edges, d, n as int, x as int);
                    assert(cv.contains(x as int));
                    let t0 = cv.take(j as int);
                    if t0.contains(x as int) {
                        let w = choose|w: int| 0 <= w < t0.len() && t0[w] == x as int;
                        assert(cur@[w] < cur@[j as int]);
                    }
                    lemma_count_true_set(done@, x as int);
                    assert(cv.take(j + 1) =~= cv.take(j as int).push(x as int));
                }
                done.set(x, true);
                proof {
                    let t1 = cv.take(j + 1);
                    let t0 = cv.take(j as int);
                    assert forall|y: int| 0 <= y < n implies (#[trigger] done@[y]) == (d.contains(y) || t1.contains(y)) by {
                        if y == x as int {
                            assert(t1[j as int] == y);
                        } else if t1.contains(y) {
                            let w = choose|w: int| 0 <= w < t1.len() && t1[w] == y;
                            assert(t0[w] == y);
                        } else if t0.contains(y) {
                            let w = choose|w: int| 0 <= w < t0.len() && t0[w] == y;
                            assert(t1[w] == y);
                        }
                    }
                }
                j += 1;
            }
            proof {
                assert(cv.take(cur.len() as int) =~= cv);
                lemma_count_true_bound(done@);
                assert forall|y: int| 0 <= y < n implies (#[trigger] done@[y]) == placed(nn, edges, (levels.len() + 1) as nat).contains(y) by {
                    lemma_ready_upto(nn, edges, d, n as int, y);
                }
            }
            placed_count = placed_count + cur.len();
            let mut row: Vec<String> = Vec::new();
            let mut k: usize = 0;
            while k < cur.len()
                invariant
                    k <= cur.len(),
                    graph.wf(),
                    names == graph_nodes(*g),
                    cv == cur@.map_values(|x: usize| x as int),
                    forall|a: int| 0 <= a < cur.len() ==> #[trigger] cur@[a] < names.len(),
                    views(row@) == cv.take(k as int).map_values(|x: int| names[x]),
                decreases cur.len() - k,
            {
                let w = graph_weight(g, cur[k]);
                let ghost before = views(row@);
                row.push(w.clone());
                proof {
                    assert(views(row@) =~= before.push(w@));
                    assert(cv.take(k + 1) =~= cv.take(k as int).push(cv[k as int]));
                    assert(cv.take(k + 1).map_values(|x: int| names[x]) =~= cv.take(k as int).map_values(|x: int| names[x]).push(names[cv[k as int]]));
                }
                k += 1;
            }
            proof {
                assert(cv.take(cur.len() as int) =~= cv);
            }
            let sorted = sort_names(row);
            let ghost before_levels = levels@;
            levels.push(sorted);
            proof {
                assert forall|k: int| 0 <= k < levels.len() implies sorted_perm(
                    views((#[trigger] levels@[k])@),
                    layer(nn, edges, k as nat).map_values(|v: int| names[v]),
                ) by {
                    if k < before_levels.len() {
                        assert(levels@[k] == before_levels[k]);
                    }
                }
            }
        }
    }
    levels
}

proof fn lemma_take_all_false(s: Seq<bool>, m: int)
    requires
        0 <= m <= s.len(),
        forall|v: int| 0 <= v < s.len() ==> !(#[trigger] s[v]),
    ensures
        count_true(s.take(m)) == 0,
    decreases m,
{
    if m > 0 {
        lemma_take_all_false(s, m - 1);
        assert(s.take(m).drop_last() =~= s.take(m - 1));
    }
}

/// Two sequences with the same elements contain the same things.
pub proof fn lemma_multiset_contains(a: Seq<Seq<char>>, b: Seq<Seq<char>>, x: Seq<char>)
    requires
        a.to_multiset() == b.to_multiset(),
    ensures
        a.contains(x) <==> b.contains(x),
{
    vstd::seq_lib::to_multiset_contains(a, x);
    vstd::seq_lib::to_multiset_contains(b, x);
}

/// Whether the job graph of `wf` fits petgraph's index space: fewer than
/// `u32::MAX` nodes and edges, which [`build_job_graph`] needs.
pub fn graph_fits(wf: &WorkflowFile) -> (r: bool)
    ensures
        r == (wf.instances@.len() < u32::MAX && job_edges(wf.instances@).len() < u32::MAX),
{
    let insts = &wf.instances;
    let n = insts.len();
    if n >= 4294967295 {
        return false;
    }
    let mut count: usize = 0;
    let mut i: usize = 0;
    while i < n
        invariant
            n == insts@.len() < u32::MAX,
                insts@ == wf.instances@,
            i <= n,
            count == edges_upto(insts@, i as int).len(),
            count < u32::MAX,
        decreases n - i,
    {
        let needs = &insts.value_at(i).needs;
        let ghost pre = edges_upto(insts@, i as int);
        let mut j: usize = 0;
        proof {
            assert(needs@.take(0) =~= Seq::<String>::empty());
        }
        while j < needs.len()
            invariant
                n == insts@.len() < u32::MAX,
                insts@ == wf.instances@,
                i < n,
                j <= needs.len(),
                *needs == insts@[i as int].1.needs,
                pre == edges_upto(insts@, i as int),
                count == pre.len() + need_edges(insts@, i as int, needs@.take(j as int)).len(),
                count < u32::MAX,
            decreases needs.len() - j,
        {
            let need = &needs[j];
            proof {
                assert(needs@.take(j + 1).drop_last() =~= needs@.take(j as int));
                assert(needs@.take(j + 1).last() == needs@[j as int]);
            }
            let ghost before = count;
            let mut u: usize = 0;
            while u < n
                invariant
                    n == insts@.len(),
                    insts@ == wf.instances@,
                    u <= n,
                    i < n,
                    j < needs.len(),
                    *needs == insts@[i as int].1.needs,
                    need@ == needs@[j as int]@,
                    before == pre.len() + need_edges(insts@, i as int, needs@.take(j as int)).len(),
                    pre == edges_upto(insts@, i as int),
                    count == before + ups_upto(insts@, need@, u as int).len(),
                    count < u32::MAX,
                decreases n - u,
            {
                if crate::smap::str_eq(insts.value_at(u).base_id.as_str(), need.as_str()) {
                    if count + 1 >= 4294967295 {
                        proof {
                            assert(ups_upto(insts@, need@, u + 1).len() == ups_upto(insts@, need@, u as int).len() + 1);
                            assert(needs@.take(j + 1).drop_last() =~= needs@.take(j as int));
                            assert(needs@.take(j + 1).last() == needs@[j as int]);
                            lemma_ups_mono(insts@, need@, u + 1, n as int);
                            lemma_need_edges_mono(insts@, i as int, needs@, j + 1);
                            lemma_edges_mono(insts@, i + 1, n as int);
                            assert(need_edges(insts@, i as int, needs@.take(j + 1)).len() == need_edges(insts@, i as int, needs@.take(j as int)).len() + ups(insts@, need@).len());
                            assert(edges_upto(insts@, i + 1) == pre + need_edges(insts@, i as int, needs@));
                            assert(count + 1 <= before + ups(insts@, need@).len());
                            assert(before + ups(insts@, need@).len() == pre.len() + need_edges(insts@, i as int, needs@.take(j + 1)).len());
                            assert(pre.len() + need_edges(insts@, i as int, needs@.take(j + 1)).len() <= edges_upto(insts@, i + 1).len());
                            assert(job_edges(insts@).len() >= u32::MAX);
                        }
                        return false;
                    }
                    count = count + 1;
                }
                u += 1;
            }
            j += 1;
        }
        proof {
            assert(needs@.take(needs@.len() as int) =~= needs@);
        }
        i += 1;
    }
    true
}

proof fn lemma_note_missing_distinct(acc: Seq<(Seq<char>, Seq<char>)>, insts: Instances, base: Seq<char>, needs: Seq<String>)
    requires
        acc.no_duplicates(),
    ensures
        note_missing(acc, insts, base, needs).no_duplicates(),
    decreases needs.len(),
{
    if needs.len() > 0 {
        lemma_note_missing_distinct(acc, insts, base, needs.drop_last());
        let a = note_missing(acc, insts, base, needs.drop_last());
        let p = (base, needs.last()@);
        if ups(insts, needs.last()@).len() == 0 && !a.contains(p) {
            assert forall|i: int, j: int| 0 <= i < j < a.push(p).len() implies a.push(p)[i] != a.push(p)[j] by {
                if j == a.len() {
                    assert(a.push(p)[i] == a[i]);
                }
            }
        }
    }
}

/// A missing `needs:` name is reported once per job: the `(base job, name)`
/// pairs of the missing-need findings are distinct.
pub proof fn lemma_missing_pairs_distinct(insts: Instances)
    ensures
        missing_pairs(insts).no_duplicates(),
{
    lemma_missing_upto_distinct(insts, insts.len() as int);
}

proof fn lemma_missing_upto_distinct(insts: Instances, m: int)
    ensures
        missing_upto(insts, m).no_duplicates(),
    decreases m,
{
    if m > 0 {
        lemma_missing_upto_distinct(insts, m - 1);
        lemma_note_missing_distinct(missing_upto(insts, m - 1), insts, insts[m - 1].1.base_id@, insts[m - 1].1.needs@);
    }
}

/// A `needs:` entry fans out: when instance `i` needs base job `b`, every
/// instance of `b` has an edge to `i`.
pub proof fn lemma_needs_fan_out(insts: Instances, i: int, k: int, u: int)
    requires
        0 <= i < insts.len(),
        0 <= k < insts[i].1.needs@.len(),
        0 <= u < insts.len(),
        insts[u].1.base_id@ == insts[i].1.needs@[k]@,
    ensures
        job_edges(insts).contains((u, i)),
{
    let needs = insts[i].1.needs@;
    let b = needs[k]@;
    lemma_ups_contains(insts, b, insts.len() as int, u);
    let us = ups(insts, b);
    let w = choose|w: int| 0 <= w < us.len() && us[w] == u;
    let part = us.map_values(|x: int| (x, i));
    assert(part[w] == (u, i));
    lemma_need_edges_has(insts, i, needs, k, part, w);
    let ne = need_edges(insts, i, needs);
    let q = choose|q: int| 0 <= q < ne.len() && ne[q] == (u, i);
    lemma_edges_upto_has(insts, i, insts.len() as int, q);
}

proof fn lemma_ups_contains(insts: Instances, base: Seq<char>, m: int, u: int)
    requires
        0 <= u < m <= insts.len(),
        insts[u].1.base_id@ == base,
    ensures
        ups_upto(insts, base, m).contains(u),
    decreases m,
{
    let r = ups_upto(insts, base, m - 1);
    if u == m - 1 {
        assert(r.push(u)[r.len() as int] == u);
    } else {
        lemma_ups_contains(insts, base, m - 1, u);
        let w = choose|w: int| 0 <= w < r.len() && r[w] == u;
        if insts[m - 1].1.base_id@ == base {
            assert(r.push(m - 1)[w] == u);
        }
    }
}

proof fn lemma_need_edges_has(insts: Instances, i: int, needs: Seq<String>, k: int, part: Seq<(int, int)>, w: int)
    requires
        0 <= k < needs.len(),
        part == ups(insts, needs[k]@).map_values(|x: int| (x, i)),
        0 <= w < part.len(),
    ensures
        need_edges(insts, i, needs).contains(part[w]),
    decreases needs.len(),
{
    let init = need_edges(insts, i, needs.drop_last());
    let last = ups(insts, needs.last()@).map_values(|x: int| (x, i));
    if k == needs.len() - 1 {
        assert((init + last)[init.len() + w] == part[w]);
    } else {
        assert(needs.drop_last()[k] == needs[k]);
        lemma_need_edges_has(insts, i, needs.drop_last(), k, part, w);
        let q = choose|q: int| 0 <= q < init.len() && init[q] == part[w];
        assert((init + last)[q] == part[w]);
    }
}

proof fn lemma_edges_upto_has(insts: Instances, i: int, m: int, q: int)
    requires
        0 <= i < m <= insts.len(),
        0 <= q < need_edges(insts, i, insts[i].1.needs@).len(),
    ensures
        edges_upto(insts, m).contains(need_edges(insts, i, insts[i].1.needs@)[q]),
    decreases m,
{
    let init = edges_upto(insts, m - 1);
    let last = need_edges(insts, m - 1, insts[m - 1].1.needs@);
    if i == m - 1 {
        assert((init + last)[init.len() + q] == last[q]);
    } else {
        lemma_edges_upto_has(insts, i, m - 1, q);
        let e = need_edges(insts, i, insts[i].1.needs@)[q];
        let p = choose|p: int| 0 <= p < init.len() && init[p] == e;
        assert((init + last)[p] == e);
    }
}

proof fn lemma_placed_mono(n: nat, edges: Seq<(int, int)>, a: nat, b: nat, v: int)
    requires
        a <= b,
        placed(n, edges, a).contains(v),
    ensures
        placed(n, edges, b).contains(v),
    decreases b - a,
{
    if a < b {
        lemma_placed_mono(n, edges, a, (b - 1) as nat, v);
    }
}

proof fn lemma_cyclic_listed(comps: Seq<Seq<int>>, edges: Seq<(int, int)>, m: int, k: int)
    requires
        0 <= k < m <= comps.len(),
        is_cyclic(comps[k], edges),
    ensures
        exists|t: int| 0 <= t < cyclic_upto(comps, edges, m).len() && #[trigger] cyclic_upto(comps, edges, m)[t] == comps[k],
    decreases m,
{
    if k < m - 1 {
        lemma_cyclic_listed(comps, edges, m - 1, k);
        let t = choose|t: int| 0 <= t < cyclic_upto(comps, edges, m - 1).len() && #[trigger] cyclic_upto(comps, edges, m - 1)[t]
            == comps[k];
        assert(cyclic_upto(comps, edges, m)[t] == comps[k]);
    } else {
        let r = cyclic_upto(comps, edges, m - 1);
        assert(cyclic_upto(comps, edges, m)[r.len() as int] == comps[k]);
    }
}

/// Two different jobs that need each other, directly or through other jobs,
/// are reported together in one cycle finding: the finding of their
/// strongly connected component.
pub proof fn lemma_mutual_needs_reported(
    fs: Seq<Finding>,
    file: Seq<char>,
    names: Seq<Seq<char>>,
    edges: Seq<(int, int)>,
    comps: Seq<Seq<int>>,
    a: int,
    b: int,
)
    requires
        cycle_findings_are(fs, file, names, edges, comps),
        are_sccs(comps, names.len(), edges),
        0 <= a < names.len(),
        a != b,
        reaches(edges, a, b),
        reaches(edges, b, a),
    ensures
        exists|k: int, t: int|
            0 <= k < comps.len() && 0 <= t < fs.len() && #[trigger] comps[k].contains(a) && comps[k].contains(b)
                && #[trigger] is_cycle_of(fs[t], file, names, comps[k]),
{
    assert(in_some(comps, a));
    let k = choose|k: int| 0 <= k < comps.len() && #[trigger] comps[k].contains(a);
    assert(comps[k].contains(b));
    let ia = choose|i: int| 0 <= i < comps[k].len() && comps[k][i] == a;
    let ib = choose|i: int| 0 <= i < comps[k].len() && comps[k][i] == b;
    assert(ia != ib);
    assert(comps[k].len() > 1);
    assert(is_cyclic(comps[k], edges));
    lemma_cyclic_listed(comps, edges, comps.len() as int, k);
    let t = choose|t: int| 0 <= t < cyclic_upto(comps, edges, comps.len() as int).len() && #[trigger] cyclic_upto(
        comps, edges, comps.len() as int)[t] == comps[k];
    assert(is_cycle_of(fs[t], file, names, comps[k]));
}

proof fn lemma_ups_members(insts: Instances, base: Seq<char>, m: int)
    requires
        0 <= m <= insts.len(),
    ensures
        forall|w: int| 0 <= w < ups_upto(insts, base, m).len() ==> 0 <= #[trigger] ups_upto(insts, base, m)[w] < m
            && insts[ups_upto(insts, base, m)[w]].1.base_id@ == base,
    decreases m,
{
    if m > 0 {
        lemma_ups_members(insts, base, m - 1);
    }
}

/// `u` has the base job of one of `needs`.
pub open spec fn needed_by(insts: Instances, u: int, needs: Seq<String>) -> bool {
    exists|k: int| 0 <= k < needs.len() && insts[u].1.base_id@ == (#[trigger] needs[k])@
}

proof fn lemma_need_edges_members(insts: Instances, i: int, needs: Seq<String>)
    ensures
        forall|w: int| 0 <= w < need_edges(insts, i, needs).len() ==> {
            let e = #[trigger] need_edges(insts, i, needs)[w];
            &&& e.1 == i
            &&& 0 <= e.0 < insts.len()
            &&& needed_by(insts, e.0, needs)
        },
    decreases needs.len(),
{
    if needs.len() > 0 {
        let pre = needs.drop_last();
        lemma_need_edges_members(insts, i, pre);
        lemma_ups_members(insts, needs.last()@, insts.len() as int);
        let a = need_edges(insts, i, pre);
        let us = ups(insts, needs.last()@);
        let b = us.map_values(|u: int| (u, i));
        assert forall|w: int| 0 <= w < need_edges(insts, i, needs).len() implies {
            let e = #[trigger] need_edges(insts, i, needs)[w];
            &&& e.1 == i
            &&& 0 <= e.0 < insts.len()
            &&& needed_by(insts, e.0, needs)
        } by {
            let e = need_edges(insts, i, needs)[w];
            if w < a.len() {
                assert(e == a[w]);
                let k = choose|k: int| 0 <= k < pre.len() && insts[e.0].1.base_id@ == (#[trigger] pre[k])@;
                assert(needs[k] == pre[k]);
            } else {
                assert(e == b[w - a.len()]);
                assert(e.0 == us[w - a.len()]);
                assert(needs[needs.len() - 1] == needs.last());
            }
        }
    }
}

proof fn lemma_edges_upto_members(insts: Instances, m: int)
    requires
        0 <= m <= insts.len(),
    ensures
        forall|w: int| 0 <= w < edges_upto(insts, m).len() ==> {
            let e = #[trigger] edges_upto(insts, m)[w];
            &&& 0 <= e.1 < m
            &&& 0 <= e.0 < insts.len()
            &&& needed_by(insts, e.0, insts[e.1].1.needs@)
        },
    decreases m,
{
    if m > 0 {
        lemma_edges_upto_members(insts, m - 1);
        lemma_need_edges_members(insts, m - 1, insts[m - 1].1.needs@);
        let a = edges_upto(insts, m - 1);
        let b = need_edges(insts, m - 1, insts[m - 1].1.needs@);
        assert forall|w: int| 0 <= w < edges_upto(insts, m).len() implies {
            let e = #[trigger] edges_upto(insts, m)[w];
            &&& 0 <= e.1 < m
            &&& 0 <= e.0 < insts.len()
            &&& needed_by(insts, e.0, insts[e.1].1.needs@)
        } by {
            if w < a.len() {
                assert(edges_upto(insts, m)[w] == a[w]);
            } else {
                assert(edges_upto(insts, m)[w] == b[w - a.len()]);
            }
        }
    }
}

/// The job graph has an edge from instance `u` to instance `i` exactly when
/// `u` belongs to a job that `i` needs.
pub proof fn lemma_edge_iff_needed(insts: Instances, u: int, i: int)
    requires
        0 <= u < insts.len(),
        0 <= i < insts.len(),
    ensures
        job_edges(insts).contains((u, i)) <==> needed_by(insts, u, insts[i].1.needs@),
{
    if needed_by(insts, u, insts[i].1.needs@) {
        let k = choose|k: int| 0 <= k < insts[i].1.needs@.len() && insts[u].1.base_id@ == (#[trigger] insts[i].1.needs@[k])@;
        lemma_needs_fan_out(insts, i, k, u);
    }
    if job_edges(insts).contains((u, i)) {
        lemma_edges_upto_members(insts, insts.len() as int);
        let w = choose|w: int| 0 <= w < job_edges(insts).len() && job_edges(insts)[w] == (u, i);
        assert(job_edges(insts)[w] == (u, i));
    }
}

/// Some instance of base job `b` needs `n`.
pub open spec fn needs_named(insts: Instances, b: Seq<char>, n: Seq<char>) -> bool {
    exists|i: int, k: int| 0 <= i < insts.len() && 0 <= k < insts[i].1.needs@.len() && insts[i].1.base_id@ == b
        && (#[trigger] insts[i].1.needs@[k])@ == n
}

/// No instance belongs to base job `n`.
pub open spec fn no_job_named(insts: Instances, n: Seq<char>) -> bool {
    forall|u: int| 0 <= u < insts.len() ==> (#[trigger] insts[u].1.base_id@) != n
}

proof fn lemma_ups_empty(insts: Instances, n: Seq<char>)
    ensures
        ups(insts, n).len() == 0 <==> no_job_named(insts, n),
{
    lemma_ups_members(insts, n, insts.len() as int);
    if ups(insts, n).len() > 0 {
        assert(insts[ups(insts, n)[0]].1.base_id@ == n);
    } else {
        assert forall|u: int| 0 <= u < insts.len() implies (#[trigger] insts[u].1.base_id@) != n by {
            if insts[u].1.base_id@ == n {
                lemma_ups_contains(insts, n, insts.len() as int, u);
            }
        }
    }
}

proof fn lemma_note_missing_members(acc: Seq<(Seq<char>, Seq<char>)>, insts: Instances, base: Seq<char>, needs: Seq<String>, p: (Seq<char>, Seq<char>))
    ensures
        note_missing(acc, insts, base, needs).contains(p) <==> acc.contains(p) || (p.0 == base && no_job_named(insts, p.1)
            && exists|k: int| 0 <= k < needs.len() && (#[trigger] needs[k])@ == p.1),
    decreases needs.len(),
{
    if needs.len() > 0 {
        let pre = needs.drop_last();
        lemma_note_missing_members(acc, insts, base, pre, p);
        lemma_ups_empty(insts, needs.last()@);
        let a = note_missing(acc, insts, base, pre);
        if (exists|k: int| 0 <= k < needs.len() && (#[trigger] needs[k])@ == p.1) {
            let k = choose|k: int| 0 <= k < needs.len() && (#[trigger] needs[k])@ == p.1;
            if k < needs.len() - 1 {
                assert(pre[k] == needs[k]);
            }
        }
        if (exists|k: int| 0 <= k < pre.len() && (#[trigger] pre[k])@ == p.1) {
            let k = choose|k: int| 0 <= k < pre.len() && (#[trigger] pre[k])@ == p.1;
            assert(needs[k] == pre[k]);
        }
        if a.contains((base, needs.last()@)) || ups(insts, needs.last()@).len() != 0 {
        } else {
            assert(a.push((base, needs.last()@)).contains(p) <==> a.contains(p) || p == (base, needs.last()@)) by {
                if a.push((base, needs.last()@)).contains(p) {
                    let j = choose|j: int| 0 <= j < a.len() + 1 && a.push((base, needs.last()@))[j] == p;
                    if j < a.len() {
                        assert(a[j] == p);
                    }
                }
                if a.contains(p) {
                    let j = choose|j: int| 0 <= j < a.len() && a[j] == p;
                    assert(a.push((base, needs.last()@))[j] == p);
                }
                if p == (base, needs.last()@) {
                    assert(a.push((base, needs.last()@))[a.len() as int] == p);
                }
            }
        }
    }
}

proof fn lemma_missing_upto_members(insts: Instances, m: int, p: (Seq<char>, Seq<char>))
    requires
        0 <= m <= insts.len(),
    ensures
        missing_upto(insts, m).contains(p) <==> no_job_named(insts, p.1) && exists|i: int, k: int| 0 <= i < m && 0 <= k
            < insts[i].1.needs@.len() && insts[i].1.base_id@ == p.0 && (#[trigger] insts[i].1.needs@[k])@ == p.1,
    decreases m,
{
    if m > 0 {
        lemma_missing_upto_members(insts, m - 1, p);
        lemma_note_missing_members(missing_upto(insts, m - 1), insts, insts[m - 1].1.base_id@, insts[m - 1].1.needs@, p);
        if (exists|i: int, k: int| 0 <= i < m && 0 <= k < insts[i].1.needs@.len() && insts[i].1.base_id@ == p.0
            && (#[trigger] insts[i].1.needs@[k])@ == p.1) {
            let (i, k) = choose|i: int, k: int| 0 <= i < m && 0 <= k < insts[i].1.needs@.len() && insts[i].1.base_id@
                == p.0 && (#[trigger] insts[i].1.needs@[k])@ == p.1;
            if i == m - 1 {
                assert((insts[m - 1].1.needs@[k])@ == p.1);
            }
        }
    }
}

/// The missing-need pairs are exactly the `(base job, name)` pairs where an
/// instance of the base job needs the name and no instance belongs to a job
/// of that name.
pub proof fn lemma_missing_pairs_exact(insts: Instances, b: Seq<char>, n: Seq<char>)
    ensures
        missing_pairs(insts).contains((b, n)) <==> needs_named(insts, b, n) && no_job_named(insts, n),
{
    lemma_missing_upto_members(insts, insts.len() as int, (b, n));
}

/// A placed node is in one of the levels before.
proof fn lemma_placed_in_layer(n: nat, edges: Seq<(int, int)>, k: nat, u: int)
    requires
        placed(n, edges, k).contains(u),
    ensures
        exists|j: nat| j < k && #[trigger] layer(n, edges, j).contains(u),
    decreases k,
{
    let d = placed(n, edges, (k - 1) as nat);
    if d.contains(u) {
        lemma_placed_in_layer(n, edges, (k - 1) as nat, u);
        let j = choose|j: nat| j < k - 1 && #[trigger] layer(n, edges, j).contains(u);
        assert(layer(n, edges, j).contains(u));
    } else {
        assert(ready(n, edges, d, u));
        lemma_ready_upto(n, edges, d, n as int, u);
        assert(layer(n, edges, (k - 1) as nat).contains(u));
    }
}

/// Levels respect `needs:`: the source of every edge into a node of level
/// `k` is in an earlier level.
pub proof fn lemma_levels_respect_edges(n: nat, edges: Seq<(int, int)>, k: nat, e: int)
    requires
        0 <= e < edges.len(),
        layer(n, edges, k).contains(edges[e].1),
    ensures
        exists|j: nat| j < k && #[trigger] layer(n, edges, j).contains(edges[e].0),
{
    lemma_ready_upto(n, edges, placed(n, edges, k), n as int, edges[e].1);
    assert(ready(n, edges, placed(n, edges, k), edges[e].1));
    lemma_placed_in_layer(n, edges, k, edges[e].0);
}

/// A node of the first level has no edge in.
pub proof fn lemma_first_level_roots(n: nat, edges: Seq<(int, int)>, v: int, e: int)
    requires
        layer(n, edges, 0).contains(v),
        0 <= e < edges.len(),
    ensures
        edges[e].1 != v,
{
    lemma_ready_upto(n, edges, placed(n, edges, 0), n as int, v);
    assert(placed(n, edges, 0) =~= Set::<int>::empty());
}

/// A node of a later level `k` has an edge in from a node of level `k - 1`.
pub proof fn lemma_previous_level_edge(n: nat, edges: Seq<(int, int)>, k: nat, v: int)
    requires
        k > 0,
        layer(n, edges, k).contains(v),
    ensures
        exists|e: int| 0 <= e < edges.len() && (#[trigger] edges[e]).1 == v && layer(n, edges, (k - 1) as nat).contains(edges[e].0),
{
    let d = placed(n, edges, (k - 1) as nat);
    let dk = placed(n, edges, k);
    lemma_ready_upto(n, edges, dk, n as int, v);
    assert(ready(n, edges, dk, v));
    assert(!d.contains(v)) by {
        if d.contains(v) {
            assert(dk.contains(v));
        }
    }
    assert(!ready(n, edges, d, v)) by {
        if ready(n, edges, d, v) {
            assert(dk.contains(v));
        }
    }
    let e = choose|e: int| 0 <= e < edges.len() && (#[trigger] edges[e]).1 == v && !d.contains(edges[e].0);
    assert(dk.contains(edges[e].0));
    assert(ready(n, edges, d, edges[e].0));
    lemma_ready_upto(n, edges, d, n as int, edges[e].0);
}

/// A node reached from a node in no level is in no level either.
proof fn lemma_unplaced_downstream(n: nat, edges: Seq<(int, int)>, p: Seq<int>, k: nat)
    requires
        is_path(edges, p),
        forall|j: nat| !#[trigger] layer(n, edges, j).contains(p[0]),
    ensures
        !layer(n, edges, k).contains(p.last()),
    decreases p.len(),
{
    if p.len() > 1 {
        let q = p.drop_last();
        assert(is_path(edges, q)) by {
            assert forall|i: int| 0 <= i < q.len() - 1 implies edges.contains((#[trigger] q[i], q[i + 1])) by {
                assert(edges.contains((p[i], p[i + 1])));
            }
        }
        if layer(n, edges, k).contains(p.last()) {
            assert(edges.contains((p[p.len() - 2], p[p.len() - 1])));
            let e = choose|e: int| 0 <= e < edges.len() && edges[e] == (p[p.len() - 2], p[p.len() - 1]);
            lemma_levels_respect_edges(n, edges, k, e);
            let j = choose|j: nat| j < k && #[trigger] layer(n, edges, j).contains(edges[e].0);
            lemma_unplaced_downstream(n, edges, q, j);
            assert(q.last() == p[p.len() - 2]);
        }
    }
}

/// Nodes on a `needs:` cycle, and every node reached from one, are in no
/// level.
pub proof fn lemma_cycle_downstream_in_no_level(n: nat, edges: Seq<(int, int)>, cyc: Seq<int>, i: int, v: int, k: nat)
    requires
        is_cycle_path(edges, cyc),
        0 <= i < cyc.len(),
        reaches(edges, cyc[i], v),
    ensures
        !layer(n, edges, k).contains(v),
{
    assert forall|j: nat| !#[trigger] layer(n, edges, j).contains(cyc[i]) by {
        lemma_cycle_in_no_level(n, edges, cyc, j, i);
    }
    let p = choose|p: Seq<int>| #[trigger] is_path(edges, p) && p[0] == cyc[i] && p.last() == v;
    lemma_unplaced_downstream(n, edges, p, k);
}

/// Each node is in at most one level.
pub proof fn lemma_levels_disjoint(n: nat, edges: Seq<(int, int)>, a: nat, b: nat, v: int)
    requires
        a < b,
        layer(n, edges, a).contains(v),
    ensures
        !layer(n, edges, b).contains(v),
{
    lemma_ready_upto(n, edges, placed(n, edges, a), n as int, v);
    assert(placed(n, edges, a + 1).contains(v));
    lemma_placed_mono(n, edges, a + 1, b, v);
    lemma_ready_upto(n, edges, placed(n, edges, b), n as int, v);
}

/// A node with no incoming edge is in the first level.
pub proof fn lemma_roots_first(n: nat, edges: Seq<(int, int)>, v: int)
    requires
        0 <= v < n,
        forall|e: int| 0 <= e < edges.len() ==> (#[trigger] edges[e]).1 != v,
    ensures
        layer(n, edges, 0).contains(v),
{
    lemma_ready_upto(n, edges, placed(n, edges, 0), n as int, v);
}

/// `cyc` is a cycle of the graph: an edge from each node to the next, and
/// from the last back to the first.
pub open spec fn is_cycle_path(edges: Seq<(int, int)>, cyc: Seq<int>) -> bool {
    cyc.len() > 0 && forall|i: int| 0 <= i < cyc.len() ==> edges.contains((#[trigger] cyc[i], cyc[(i + 1) % (cyc.len() as int)]))
}

/// No node of a `needs:` cycle is ever placed, so a cyclic job is in no
/// level.
pub proof fn lemma_cycle_never_placed(n: nat, edges: Seq<(int, int)>, cyc: Seq<int>, k: nat)
    requires
        is_cycle_path(edges, cyc),
    ensures
        forall|i: int| 0 <= i < cyc.len() ==> !placed(n, edges, k).contains(#[trigger] cyc[i]),
    decreases k,
{
    if k > 0 {
        lemma_cycle_never_placed(n, edges, cyc, (k - 1) as nat);
        let d = placed(n, edges, (k - 1) as nat);
        assert forall|i: int| 0 <= i < cyc.len() implies !placed(n, edges, k).contains(#[trigger] cyc[i]) by {
            let len = cyc.len() as int;
            let p = if i == 0 { len - 1 } else { i - 1 };
            assert((p + 1) % len == i) by {
                if i == 0 {
                    assert((len - 1 + 1) % len == 0) by (nonlinear_arith)
                        requires
                            len > 0,
                    ;
                } else {
                    assert((i - 1 + 1) % len == i) by (nonlinear_arith)
                        requires
                            0 < i < len,
                    ;
                }
            }
            assert(edges.contains((cyc[p], cyc[(p + 1) % len])));
            let e = choose|e: int| 0 <= e < edges.len() && edges[e] == (cyc[p], cyc[i]);
            assert(!d.contains(cyc[p]));
            assert(!ready(n, edges, d, cyc[i]));
        }
    }
}

/// No node of a `needs:` cycle is in any level.
pub proof fn lemma_cycle_in_no_level(n: nat, edges: Seq<(int, int)>, cyc: Seq<int>, k: nat, i: int)
    requires
        is_cycle_path(edges, cyc),
        0 <= i < cyc.len(),
    ensures
        !layer(n, edges, k).contains(cyc[i]),
{
    lemma_cycle_never_placed(n, edges, cyc, k + 1);
    lemma_ready_upto(n, edges, placed(n, edges, k), n as int, cyc[i]);
}

} // verus!
