//! The dependency graph over skill names: nodes are every map key and every
//! referenced target (dangling targets become phantom nodes), edges are the
//! distinct (source, target) pairs, and the analysis yields clusters of
//! mutually reachable names, roots, leaves and the bridge heuristic.

use vstd::prelude::*;

use crate::crossref::{CrossRef, CrossRefV};
use crate::text::{
    ci_char_eq, chars_vec, names_sorted, sort_names, str_eq, vec_contains_string,
};

verus! {

// ---------------------------------------------------------------------------
// Nodes and edges
// ---------------------------------------------------------------------------

/// Appends a name unless it is already present.
pub open spec fn push_unique(acc: Seq<Seq<char>>, n: Seq<char>) -> Seq<Seq<char>> {
    if acc.contains(n) {
        acc
    } else {
        acc.push(n)
    }
}

pub open spec fn add_target_nodes(
    acc: Seq<Seq<char>>,
    refs: Seq<CrossRefV>,
    j: int,
) -> Seq<Seq<char>>
    decreases refs.len() - j when 0 <= j
{
    if j >= refs.len() {
        acc
    } else {
        add_target_nodes(push_unique(acc, refs[j].target), refs, j + 1)
    }
}

pub open spec fn nodes_from(
    cr: Seq<(Seq<char>, Seq<CrossRefV>)>,
    i: int,
    acc: Seq<Seq<char>>,
) -> Seq<Seq<char>>
    decreases cr.len() - i when 0 <= i
{
    if i >= cr.len() {
        acc
    } else {
        nodes_from(cr, i + 1, add_target_nodes(push_unique(acc, cr[i].0), cr[i].1, 0))
    }
}

/// The graph's node list: every map key and every referenced target, each
/// kept at its first occurrence.
pub open spec fn spec_nodes(cr: Seq<(Seq<char>, Seq<CrossRefV>)>) -> Seq<Seq<char>> {
    nodes_from(cr, 0, Seq::empty())
}

/// Appends a name pair unless it is already present.
pub open spec fn push_unique_pair(
    acc: Seq<(Seq<char>, Seq<char>)>,
    e: (Seq<char>, Seq<char>),
) -> Seq<(Seq<char>, Seq<char>)> {
    if acc.contains(e) {
        acc
    } else {
        acc.push(e)
    }
}

pub open spec fn add_target_edges(
    acc: Seq<(Seq<char>, Seq<char>)>,
    source: Seq<char>,
    refs: Seq<CrossRefV>,
    j: int,
) -> Seq<(Seq<char>, Seq<char>)>
    decreases refs.len() - j when 0 <= j
{
    if j >= refs.len() {
        acc
    } else {
        add_target_edges(push_unique_pair(acc, (source, refs[j].target)), source, refs, j + 1)
    }
}

pub open spec fn edges_from(
    cr: Seq<(Seq<char>, Seq<CrossRefV>)>,
    i: int,
    acc: Seq<(Seq<char>, Seq<char>)>,
) -> Seq<(Seq<char>, Seq<char>)>
    decreases cr.len() - i when 0 <= i
{
    if i >= cr.len() {
        acc
    } else {
        edges_from(cr, i + 1, add_target_edges(acc, cr[i].0, cr[i].1, 0))
    }
}

/// The graph's edge list: one directed edge per distinct (source, target)
/// pair, in first-occurrence order.
pub open spec fn spec_edges(cr: Seq<(Seq<char>, Seq<CrossRefV>)>) -> Seq<
    (Seq<char>, Seq<char>),
> {
    edges_from(cr, 0, Seq::empty())
}

// ---------------------------------------------------------------------------
// Degrees and reachability
// ---------------------------------------------------------------------------

pub open spec fn into_pred(n: Seq<char>) -> spec_fn((Seq<char>, Seq<char>)) -> bool {
    |e: (Seq<char>, Seq<char>)| e.1 == n
}

pub open spec fn out_of_pred(n: Seq<char>) -> spec_fn((Seq<char>, Seq<char>)) -> bool {
    |e: (Seq<char>, Seq<char>)| e.0 == n
}

/// How many edges end at `n`.
pub open spec fn in_degree(edges: Seq<(Seq<char>, Seq<char>)>, n: Seq<char>) -> int {
    edges.filter(into_pred(n)).len() as int
}

/// How many edges leave `n`.
pub open spec fn out_degree(edges: Seq<(Seq<char>, Seq<char>)>, n: Seq<char>) -> int {
    edges.filter(out_of_pred(n)).len() as int
}

/// Adjacency between node indices: an edge from node `i` to node `j`.
pub open spec fn spec_adj(
    nodes: Seq<Seq<char>>,
    edges: Seq<(Seq<char>, Seq<char>)>,
    i: int,
    j: int,
) -> bool {
    edges.contains((nodes[i], nodes[j]))
}

/// A directed walk through node indices, following edges.
pub open spec fn is_walk(
    nodes: Seq<Seq<char>>,
    edges: Seq<(Seq<char>, Seq<char>)>,
    p: Seq<int>,
) -> bool {
    &&& p.len() >= 2
    &&& forall|k: int| 0 <= k < p.len() ==> 0 <= #[trigger] p[k] < nodes.len()
    &&& forall|k: int| 0 <= k < p.len() - 1 ==> spec_adj(nodes, edges, #[trigger] p[k], p[k + 1])
}

/// Node `j` can be reached from node `i` along at least one edge.
pub open spec fn reaches(
    nodes: Seq<Seq<char>>,
    edges: Seq<(Seq<char>, Seq<char>)>,
    i: int,
    j: int,
) -> bool {
    exists|p: Seq<int>| is_walk(nodes, edges, p) && p.first() == i && p.last() == j
}

/// Two nodes reach each other; for distinct nodes this puts them in one
/// cluster.
pub open spec fn mutual(
    nodes: Seq<Seq<char>>,
    edges: Seq<(Seq<char>, Seq<char>)>,
    i: int,
    j: int,
) -> bool {
    reaches(nodes, edges, i, j) && reaches(nodes, edges, j, i)
}

/// Walks compose: reachability is transitive.
pub proof fn lemma_reaches_trans(
    nodes: Seq<Seq<char>>,
    edges: Seq<(Seq<char>, Seq<char>)>,
    i: int,
    j: int,
    k: int,
)
    requires
        reaches(nodes, edges, i, j),
        reaches(nodes, edges, j, k),
    ensures
        reaches(nodes, edges, i, k),
{
    let p1 = choose|p: Seq<int>| is_walk(nodes, edges, p) && p.first() == i && p.last() == j;
    let p2 = choose|p: Seq<int>| is_walk(nodes, edges, p) && p.first() == j && p.last() == k;
    let q = p1 + p2.drop_first();
    assert(q.len() >= 2);
    assert forall|m: int| 0 <= m < q.len() - 1 implies spec_adj(
        nodes,
        edges,
        #[trigger] q[m],
        q[m + 1],
    ) by {
        if m < p1.len() - 1 {
            assert(q[m] == p1[m]);
            assert(q[m + 1] == p1[m + 1]);
        } else if m == p1.len() - 1 {
            assert(q[m] == p1[p1.len() - 1]);
            assert(q[m + 1] == p2.drop_first()[0]);
            assert(p2.drop_first()[0] == p2[1]);
            assert(p1.last() == p2.first());
            assert(spec_adj(nodes, edges, p2[0], p2[1]));
        } else {
            assert(q[m] == p2.drop_first()[m - p1.len()]);
            assert(q[m + 1] == p2.drop_first()[m + 1 - p1.len()]);
            assert(q[m] == p2[m - p1.len() + 1]);
            assert(q[m + 1] == p2[m - p1.len() + 2]);
            assert(spec_adj(nodes, edges, p2[m - p1.len() + 1], p2[m - p1.len() + 2]));
        }
    }
    assert forall|m: int| 0 <= m < q.len() implies 0 <= #[trigger] q[m] < nodes.len() by {
        if m < p1.len() {
        } else {
            assert(q[m] == p2.drop_first()[m - p1.len()]);
            assert(q[m] == p2[m - p1.len() + 1]);
        }
    }
    assert(is_walk(nodes, edges, q));
    assert(q.first() == i);
    assert(q.last() == p2.drop_first().last());
    assert(q.last() == k);
}

// ---------------------------------------------------------------------------
// The graph value
// ---------------------------------------------------------------------------

/// A skill dependency graph with its analysis results.
#[derive(Debug)]
pub struct SkillGraph {
    /// Every node name, each exactly once, in first-occurrence order.
    pub nodes: Vec<String>,
    /// Every distinct edge, in first-occurrence order.
    pub edges: Vec<(String, String)>,
    /// Groups of mutually reachable names; only groups of two or more are
    /// reported.
    pub clusters: Vec<Vec<String>>,
    /// Names with no incoming edge, sorted.
    pub roots: Vec<String>,
    /// Names with no outgoing edge, sorted.
    pub leaves: Vec<String>,
    /// The bridge heuristic: names with both incoming and outgoing edges,
    /// sorted. This is deliberately not articulation-point detection.
    pub bridges: Vec<String>,
}

pub open spec fn root_pred(edges: Seq<(Seq<char>, Seq<char>)>) -> spec_fn(Seq<char>) -> bool {
    |n: Seq<char>| in_degree(edges, n) == 0
}

pub open spec fn leaf_pred(edges: Seq<(Seq<char>, Seq<char>)>) -> spec_fn(Seq<char>) -> bool {
    |n: Seq<char>| out_degree(edges, n) == 0
}

pub open spec fn bridge_pred(edges: Seq<(Seq<char>, Seq<char>)>) -> spec_fn(Seq<char>) -> bool {
    |n: Seq<char>| in_degree(edges, n) > 0 && out_degree(edges, n) > 0
}

/// What the analysis promises about a built graph.
pub open spec fn graph_wf(g: SkillGraph, cr: Seq<(Seq<char>, Seq<CrossRefV>)>) -> bool {
    let nodes = g.nodes.deep_view();
    let edges = g.edges.deep_view();
    &&& nodes == spec_nodes(cr)
    &&& edges == spec_edges(cr)
    &&& names_sorted(g.roots.deep_view())
    &&& g.roots.deep_view().to_multiset() == nodes.filter(root_pred(edges)).to_multiset()
    &&& names_sorted(g.leaves.deep_view())
    &&& g.leaves.deep_view().to_multiset() == nodes.filter(leaf_pred(edges)).to_multiset()
    &&& names_sorted(g.bridges.deep_view())
    &&& g.bridges.deep_view().to_multiset() == nodes.filter(bridge_pred(edges)).to_multiset()
    &&& clusters_wf(g.clusters.deep_view(), nodes, edges)
}

/// Two names that are mutually reachable node names.
pub open spec fn mutual_names(
    nodes: Seq<Seq<char>>,
    edges: Seq<(Seq<char>, Seq<char>)>,
    x: Seq<char>,
    y: Seq<char>,
) -> bool {
    exists|i: int, j: int|
        0 <= i < nodes.len() && 0 <= j < nodes.len() && nodes[i] == x && nodes[j] == y && mutual(
            nodes,
            edges,
            i,
            j,
        )
}

/// Two names that stand together in some reported cluster.
pub open spec fn in_same_cluster(clusters: Seq<Seq<Seq<char>>>, x: Seq<char>, y: Seq<char>)
    -> bool {
    exists|c: int, a: int, b: int|
        0 <= c < clusters.len() && 0 <= a < clusters[c].len() && 0 <= b < clusters[c].len() && (
        #[trigger] clusters[c][a]) == x && (#[trigger] clusters[c][b]) == y
}

/// What the cluster list promises: every reported cluster holds at least
/// two node names, all mutually reachable; no name appears twice anywhere
/// in the report, so the clusters are pairwise disjoint with distinct
/// members; and any two distinct mutually reachable nodes stand together
/// in some reported cluster. Together these pin the report down to exactly
/// the strongly connected components of size two or more.
pub open spec fn clusters_wf(
    clusters: Seq<Seq<Seq<char>>>,
    nodes: Seq<Seq<char>>,
    edges: Seq<(Seq<char>, Seq<char>)>,
) -> bool {
    &&& forall|c: int| 0 <= c < clusters.len() ==> (#[trigger] clusters[c]).len() >= 2
    &&& forall|c: int, a: int|
        0 <= c < clusters.len() && 0 <= a < clusters[c].len() ==> nodes.contains(
            #[trigger] clusters[c][a],
        )
    &&& forall|c1: int, a1: int, c2: int, a2: int|
        0 <= c1 < clusters.len() && 0 <= a1 < clusters[c1].len() && 0 <= c2 < clusters.len() && 0
            <= a2 < clusters[c2].len() && (c1 != c2 || a1 != a2) ==> (
        #[trigger] clusters[c1][a1]) != (#[trigger] clusters[c2][a2])
    &&& forall|c: int, a: int, b: int|
        0 <= c < clusters.len() && 0 <= a < clusters[c].len() && 0 <= b < clusters[c].len() && a
            != b ==> mutual_names(nodes, edges, (#[trigger] clusters[c][a]), (
        #[trigger] clusters[c][b]))
    &&& forall|i: int, j: int|
        0 <= i < nodes.len() && 0 <= j < nodes.len() && i != j && #[trigger] mutual(
            nodes,
            edges,
            i,
            j,
        ) ==> in_same_cluster(clusters, nodes[i], nodes[j])
}

// ---------------------------------------------------------------------------
// Output formats of the exporters
// ---------------------------------------------------------------------------

/// The serialization formats the graph exports to.
#[derive(Debug, Clone, Copy)]
pub enum OutputFormat {
    Dot,
    Text,
    Json,
    Mermaid,
}

/// Case-insensitive equality against a lowercase word.
pub open spec fn str_eq_ci(a: Seq<char>, b: Seq<char>) -> bool {
    a.len() == b.len() && forall|k: int| 0 <= k < a.len() ==> ci_char_eq(a[k], b[k])
}

pub open spec fn spec_format_from(s: Seq<char>) -> Option<OutputFormat> {
    if str_eq_ci(s, "dot"@) {
        Some(OutputFormat::Dot)
    } else if str_eq_ci(s, "text"@) {
        Some(OutputFormat::Text)
    } else if str_eq_ci(s, "json"@) {
        Some(OutputFormat::Json)
    } else if str_eq_ci(s, "mermaid"@) {
        Some(OutputFormat::Mermaid)
    } else {
        None
    }
}

fn eq_ci_exec(sv: &Vec<char>, pat: &Vec<char>) -> (r: bool)
    ensures
        r == str_eq_ci(sv@, pat@),
{
    if sv.len() != pat.len() {
        return false;
    }
    let mut k: usize = 0;
    while k < sv.len()
        invariant
            k <= sv@.len(),
            sv@.len() == pat@.len(),
            forall|m: int| 0 <= m < k ==> ci_char_eq(sv@[m], pat@[m]),
        decreases sv@.len() - k,
    {
        if !crate::text::ci_char_match(sv[k], pat[k]) {
            return false;
        }
        k = k + 1;
    }
    true
}

impl OutputFormat {
    /// Parses a format name, ignoring ASCII case.
    pub fn from_str(s: &str) -> (r: Option<OutputFormat>)
        ensures
            r == spec_format_from(s@),
    {
        let sv = chars_vec(s);
        let p_dot = chars_vec("dot");
        let p_text = chars_vec("text");
        let p_json = chars_vec("json");
        let p_mermaid = chars_vec("mermaid");
        if eq_ci_exec(&sv, &p_dot) {
            Some(OutputFormat::Dot)
        } else if eq_ci_exec(&sv, &p_text) {
            Some(OutputFormat::Text)
        } else if eq_ci_exec(&sv, &p_json) {
            Some(OutputFormat::Json)
        } else if eq_ci_exec(&sv, &p_mermaid) {
            Some(OutputFormat::Mermaid)
        } else {
            None
        }
    }
}


// ---------------------------------------------------------------------------
// Distinctness and membership of the node list
// ---------------------------------------------------------------------------

pub open spec fn all_distinct(s: Seq<Seq<char>>) -> bool {
    forall|a: int, b: int| 0 <= a < b < s.len() ==> s[a] != s[b]
}

proof fn lemma_push_unique_distinct(acc: Seq<Seq<char>>, n: Seq<char>)
    requires
        all_distinct(acc),
    ensures
        all_distinct(push_unique(acc, n)),
        forall|x: Seq<char>| push_unique(acc, n).contains(x) <==> acc.contains(x) || x == n,
{
    if !acc.contains(n) {
        let r = acc.push(n);
        assert forall|a: int, b: int| 0 <= a < b < r.len() implies r[a] != r[b] by {
            if b == r.len() - 1 {
                assert(r[a] == acc[a]);
                assert(acc.contains(acc[a]));
            }
        }
        assert forall|x: Seq<char>| r.contains(x) implies acc.contains(x) || x == n by {
            let w = choose|w: int| 0 <= w < r.len() && r[w] == x;
            if w < acc.len() {
                assert(acc[w] == x);
            }
        }
        assert forall|x: Seq<char>| acc.contains(x) || x == n implies r.contains(x) by {
            if acc.contains(x) {
                let w = choose|w: int| 0 <= w < acc.len() && acc[w] == x;
                assert(r[w] == x);
            } else {
                assert(r[r.len() - 1] == x);
            }
        }
    }
}

proof fn lemma_add_target_nodes_distinct(acc: Seq<Seq<char>>, refs: Seq<CrossRefV>, j: int)
    requires
        0 <= j,
        all_distinct(acc),
    ensures
        all_distinct(add_target_nodes(acc, refs, j)),
        forall|x: Seq<char>|
            add_target_nodes(acc, refs, j).contains(x) <==> acc.contains(x) || exists|m: int|
                j <= m < refs.len() && (#[trigger] refs[m]).target == x,
    decreases refs.len() - j,
{
    if j < refs.len() {
        lemma_push_unique_distinct(acc, refs[j].target);
        lemma_add_target_nodes_distinct(push_unique(acc, refs[j].target), refs, j + 1);
        assert forall|x: Seq<char>|
            acc.contains(x) || (exists|m: int|
                j <= m < refs.len() && (#[trigger] refs[m]).target == x) implies add_target_nodes(
            acc,
            refs,
            j,
        ).contains(x) by {
            if !acc.contains(x) {
                let m = choose|m: int| j <= m < refs.len() && (#[trigger] refs[m]).target == x;
                if m == j {
                    assert(push_unique(acc, refs[j].target).contains(x));
                } else {
                    assert(exists|m2: int|
                        j + 1 <= m2 < refs.len() && (#[trigger] refs[m2]).target == x);
                }
            }
        }
    }
}

proof fn lemma_nodes_from_distinct(cr: Seq<(Seq<char>, Seq<CrossRefV>)>, i: int, acc: Seq<Seq<char>>)
    requires
        0 <= i,
        all_distinct(acc),
    ensures
        all_distinct(nodes_from(cr, i, acc)),
        forall|x: Seq<char>|
            nodes_from(cr, i, acc).contains(x) <==> acc.contains(x) || (exists|m: int|
                i <= m < cr.len() && (#[trigger] cr[m]).0 == x) || (exists|m: int, t: int|
                i <= m < cr.len() && 0 <= t < (#[trigger] cr[m]).1.len() && (#[trigger] cr[m].1[t]).target
                    == x),
    decreases cr.len() - i,
{
    if i < cr.len() {
        lemma_push_unique_distinct(acc, cr[i].0);
        lemma_add_target_nodes_distinct(push_unique(acc, cr[i].0), cr[i].1, 0);
        lemma_nodes_from_distinct(cr, i + 1, add_target_nodes(push_unique(acc, cr[i].0), cr[i].1, 0));
        let step = add_target_nodes(push_unique(acc, cr[i].0), cr[i].1, 0);
        assert forall|x: Seq<char>|
            (acc.contains(x) || (exists|m: int| i <= m < cr.len() && (#[trigger] cr[m]).0 == x)
                || (exists|m: int, t: int|
                i <= m < cr.len() && 0 <= t < (#[trigger] cr[m]).1.len() && (#[trigger] cr[m].1[t]).target
                    == x)) implies nodes_from(cr, i, acc).contains(x) by {
            if acc.contains(x) {
                assert(step.contains(x));
            } else if exists|m: int| i <= m < cr.len() && (#[trigger] cr[m]).0 == x {
                let m = choose|m: int| i <= m < cr.len() && (#[trigger] cr[m]).0 == x;
                if m == i {
                    assert(push_unique(acc, cr[i].0).contains(x));
                    assert(step.contains(x));
                } else {
                    assert(exists|m2: int| i + 1 <= m2 < cr.len() && (#[trigger] cr[m2]).0 == x);
                }
            } else {
                let (m, t) = choose|m: int, t: int|
                    i <= m < cr.len() && 0 <= t < (#[trigger] cr[m]).1.len() && (#[trigger] cr[m].1[t]).target
                        == x;
                if m == i {
                    assert(step.contains(x));
                } else {
                    assert(exists|m2: int, t2: int|
                        i + 1 <= m2 < cr.len() && 0 <= t2 < (#[trigger] cr[m2]).1.len()
                            && (#[trigger] cr[m2].1[t2]).target == x);
                }
            }
        }
    }
}

/// Law: the node set is exactly the map keys together with every referenced
/// target, phantom targets included; and no name appears twice.
pub proof fn lemma_node_set(cr: Seq<(Seq<char>, Seq<CrossRefV>)>)
    ensures
        all_distinct(spec_nodes(cr)),
        forall|x: Seq<char>|
            spec_nodes(cr).contains(x) <==> (exists|m: int|
                0 <= m < cr.len() && (#[trigger] cr[m]).0 == x) || (exists|m: int, t: int|
                0 <= m < cr.len() && 0 <= t < (#[trigger] cr[m]).1.len() && (#[trigger] cr[m].1[t]).target
                    == x),
{
    lemma_nodes_from_distinct(cr, 0, Seq::empty());
    assert forall|x: Seq<char>|
        spec_nodes(cr).contains(x) <==> (exists|m: int|
            0 <= m < cr.len() && (#[trigger] cr[m]).0 == x) || (exists|m: int, t: int|
            0 <= m < cr.len() && 0 <= t < (#[trigger] cr[m]).1.len() && (#[trigger] cr[m].1[t]).target
                == x) by {
        assert(!Seq::<Seq<char>>::empty().contains(x));
        assert(nodes_from(cr, 0, Seq::empty()).contains(x) <==> Seq::<Seq<char>>::empty().contains(
            x,
        ) || (exists|m: int| 0 <= m < cr.len() && (#[trigger] cr[m]).0 == x) || (exists|m: int, t: int|
            0 <= m < cr.len() && 0 <= t < (#[trigger] cr[m]).1.len() && (#[trigger] cr[m].1[t]).target
                == x));
    }
}

// ---------------------------------------------------------------------------
// Building the node and edge lists
// ---------------------------------------------------------------------------

fn push_unique_exec(acc: &mut Vec<String>, n: &String)
    ensures
        final(acc).deep_view() == push_unique(old(acc).deep_view(), n@),
{
    let ghost prev = acc.deep_view();
    if !vec_contains_string(acc, n.as_str()) {
        acc.push(n.clone());
        proof {
            assert(acc.deep_view() =~~= prev.push(n@));
        }
    }
}

fn collect_nodes(crossrefs: &Vec<(String, Vec<CrossRef>)>) -> (r: Vec<String>)
    ensures
        r.deep_view() == spec_nodes(crossrefs.deep_view()),
{
    let ghost crv = crossrefs.deep_view();
    let mut acc: Vec<String> = Vec::new();
    proof {
        assert(acc.deep_view() =~= Seq::<Seq<char>>::empty());
    }
    let mut i: usize = 0;
    while i < crossrefs.len()
        invariant
            i <= crossrefs@.len(),
            crv == crossrefs.deep_view(),
            crv.len() == crossrefs@.len(),
            nodes_from(crv, i as int, acc.deep_view()) == spec_nodes(crv),
        decreases crossrefs@.len() - i,
    {
        let pair = &crossrefs[i];
        let ghost source = crv[i as int].0;
        let ghost refs = crv[i as int].1;
        proof {
            assert(crv[i as int] == crossrefs@[i as int].deep_view());
            assert(source == pair.0@);
            assert(refs == pair.1.deep_view());
        }
        let ghost acc0 = acc.deep_view();
        push_unique_exec(&mut acc, &pair.0);
        let ghost acc1 = acc.deep_view();
        proof {
            assert(acc1 == push_unique(acc0, source));
        }
        let mut j: usize = 0;
        while j < pair.1.len()
            invariant
                j <= pair.1@.len(),
                i < crossrefs@.len(),
                crv == crossrefs.deep_view(),
                crv.len() == crossrefs@.len(),
                refs == pair.1.deep_view(),
                refs.len() == pair.1@.len(),
                add_target_nodes(acc.deep_view(), refs, j as int) == add_target_nodes(acc1, refs, 0),
            decreases pair.1@.len() - j,
        {
            let ghost accj = acc.deep_view();
            push_unique_exec(&mut acc, &pair.1[j].target);
            proof {
                assert(refs[j as int] == pair.1@[j as int]@);
                assert(acc.deep_view() == push_unique(accj, refs[j as int].target));
                assert(add_target_nodes(accj, refs, j as int) == add_target_nodes(
                    push_unique(accj, refs[j as int].target),
                    refs,
                    j as int + 1,
                ));
            }
            j = j + 1;
        }
        proof {
            assert(add_target_nodes(acc.deep_view(), refs, refs.len() as int) == acc.deep_view());
            assert(acc.deep_view() == add_target_nodes(acc1, refs, 0));
            assert(nodes_from(crv, i as int, acc0) == nodes_from(
                crv,
                i as int + 1,
                add_target_nodes(push_unique(acc0, source), refs, 0),
            ));
        }
        i = i + 1;
    }
    proof {
        assert(nodes_from(crv, crv.len() as int, acc.deep_view()) == acc.deep_view());
    }
    acc
}

fn contains_pair(edges: &Vec<(String, String)>, a: &str, b: &str) -> (r: bool)
    ensures
        r == edges.deep_view().contains((a@, b@)),
{
    let mut k: usize = 0;
    while k < edges.len()
        invariant
            k <= edges@.len(),
            forall|m: int| 0 <= m < k ==> (#[trigger] edges.deep_view()[m]) != (a@, b@),
        decreases edges@.len() - k,
    {
        let e = &edges[k];
        proof {
            assert(edges.deep_view()[k as int] == edges@[k as int].deep_view());
        }
        if str_eq(e.0.as_str(), a) && str_eq(e.1.as_str(), b) {
            proof {
                assert(edges.deep_view()[k as int] == (a@, b@));
            }
            return true;
        }
        k = k + 1;
    }
    false
}

fn push_unique_pair_exec(acc: &mut Vec<(String, String)>, a: &String, b: &String)
    ensures
        final(acc).deep_view() == push_unique_pair(old(acc).deep_view(), (a@, b@)),
{
    let ghost prev = acc.deep_view();
    if !contains_pair(acc, a.as_str(), b.as_str()) {
        acc.push((a.clone(), b.clone()));
        proof {
            assert(acc.deep_view() =~~= prev.push((a@, b@)));
        }
    }
}

fn collect_edges(crossrefs: &Vec<(String, Vec<CrossRef>)>) -> (r: Vec<(String, String)>)
    ensures
        r.deep_view() == spec_edges(crossrefs.deep_view()),
{
    let ghost crv = crossrefs.deep_view();
    let mut acc: Vec<(String, String)> = Vec::new();
    proof {
        assert(acc.deep_view() =~= Seq::<(Seq<char>, Seq<char>)>::empty());
    }
    let mut i: usize = 0;
    while i < crossrefs.len()
        invariant
            i <= crossrefs@.len(),
            crv == crossrefs.deep_view(),
            crv.len() == crossrefs@.len(),
            edges_from(crv, i as int, acc.deep_view()) == spec_edges(crv),
        decreases crossrefs@.len() - i,
    {
        let pair = &crossrefs[i];
        let ghost source = crv[i as int].0;
        let ghost refs = crv[i as int].1;
        proof {
            assert(crv[i as int] == crossrefs@[i as int].deep_view());
            assert(source == pair.0@);
            assert(refs == pair.1.deep_view());
        }
        let ghost acc0 = acc.deep_view();
        let mut j: usize = 0;
        while j < pair.1.len()
            invariant
                j <= pair.1@.len(),
                i < crossrefs@.len(),
                crv == crossrefs.deep_view(),
                crv.len() == crossrefs@.len(),
                source == pair.0@,
                refs == pair.1.deep_view(),
                refs.len() == pair.1@.len(),
                add_target_edges(acc.deep_view(), source, refs, j as int) == add_target_edges(
                    acc0,
                    source,
                    refs,
                    0,
                ),
            decreases pair.1@.len() - j,
        {
            let ghost accj = acc.deep_view();
            push_unique_pair_exec(&mut acc, &pair.0, &pair.1[j].target);
            proof {
                assert(refs[j as int] == pair.1@[j as int]@);
                assert(acc.deep_view() == push_unique_pair(accj, (source, refs[j as int].target)));
                assert(add_target_edges(accj, source, refs, j as int) == add_target_edges(
                    push_unique_pair(accj, (source, refs[j as int].target)),
                    source,
                    refs,
                    j as int + 1,
                ));
            }
            j = j + 1;
        }
        proof {
            assert(add_target_edges(acc.deep_view(), source, refs, refs.len() as int)
                == acc.deep_view());
            assert(acc.deep_view() == add_target_edges(acc0, source, refs, 0));
            assert(edges_from(crv, i as int, acc0) == edges_from(
                crv,
                i as int + 1,
                add_target_edges(acc0, source, refs, 0),
            ));
        }
        i = i + 1;
    }
    proof {
        assert(edges_from(crv, crv.len() as int, acc.deep_view()) == acc.deep_view());
    }
    acc
}

// ---------------------------------------------------------------------------
// Degrees, roots, leaves, bridges
// ---------------------------------------------------------------------------

fn count_in(edges: &Vec<(String, String)>, n: &str) -> (r: usize)
    ensures
        r as int == in_degree(edges.deep_view(), n@),
{
    let ghost edv = edges.deep_view();
    let ghost pred = into_pred(n@);
    let mut count: usize = 0;
    let mut k: usize = 0;
    proof {
        reveal_with_fuel(Seq::<(Seq<char>, Seq<char>)>::filter, 1);
        assert(edv.take(0) =~= Seq::<(Seq<char>, Seq<char>)>::empty());
    }
    while k < edges.len()
        invariant
            k <= edges@.len(),
            edv == edges.deep_view(),
            edv.len() == edges@.len(),
            pred == into_pred(n@),
            count <= k,
            count as int == edv.take(k as int).filter(pred).len(),
        decreases edges@.len() - k,
    {
        let e = &edges[k];
        let ghost x = edv[k as int];
        proof {
            assert(x == edges@[k as int].deep_view());
        }
        let hit = str_eq(e.1.as_str(), n);
        proof {
            reveal_with_fuel(Seq::<(Seq<char>, Seq<char>)>::filter, 2);
            let t = edv.take(k as int + 1);
            assert(t.drop_last() =~= edv.take(k as int));
            assert(t.last() == x);
            assert(t.filter(pred) == if pred(x) {
                t.drop_last().filter(pred).push(x)
            } else {
                t.drop_last().filter(pred)
            });
            assert(pred(x) == hit);
        }
        if hit {
            count = count + 1;
        }
        k = k + 1;
    }
    proof {
        assert(edv.take(edv.len() as int) =~= edv);
    }
    count
}

fn count_out(edges: &Vec<(String, String)>, n: &str) -> (r: usize)
    ensures
        r as int == out_degree(edges.deep_view(), n@),
{
    let ghost edv = edges.deep_view();
    let ghost pred = out_of_pred(n@);
    let mut count: usize = 0;
    let mut k: usize = 0;
    proof {
        reveal_with_fuel(Seq::<(Seq<char>, Seq<char>)>::filter, 1);
        assert(edv.take(0) =~= Seq::<(Seq<char>, Seq<char>)>::empty());
    }
    while k < edges.len()
        invariant
            k <= edges@.len(),
            edv == edges.deep_view(),
            edv.len() == edges@.len(),
            pred == out_of_pred(n@),
            count <= k,
            count as int == edv.take(k as int).filter(pred).len(),
        decreases edges@.len() - k,
    {
        let e = &edges[k];
        let ghost x = edv[k as int];
        proof {
            assert(x == edges@[k as int].deep_view());
        }
        let hit = str_eq(e.0.as_str(), n);
        proof {
            reveal_with_fuel(Seq::<(Seq<char>, Seq<char>)>::filter, 2);
            let t = edv.take(k as int + 1);
            assert(t.drop_last() =~= edv.take(k as int));
            assert(t.last() == x);
            assert(t.filter(pred) == if pred(x) {
                t.drop_last().filter(pred).push(x)
            } else {
                t.drop_last().filter(pred)
            });
            assert(pred(x) == hit);
        }
        if hit {
            count = count + 1;
        }
        k = k + 1;
    }
    proof {
        assert(edv.take(edv.len() as int) =~= edv);
    }
    count
}

/// Selects, in node order, the names satisfying one of the three degree
/// roles, then sorts them.
fn select_role(nodes: &Vec<String>, edges: &Vec<(String, String)>, role: u8) -> (r: Vec<String>)
    requires
        role < 3,
    ensures
        names_sorted(r.deep_view()),
        role == 0 ==> r.deep_view().to_multiset() == nodes.deep_view().filter(
            root_pred(edges.deep_view()),
        ).to_multiset(),
        role == 1 ==> r.deep_view().to_multiset() == nodes.deep_view().filter(
            leaf_pred(edges.deep_view()),
        ).to_multiset(),
        role == 2 ==> r.deep_view().to_multiset() == nodes.deep_view().filter(
            bridge_pred(edges.deep_view()),
        ).to_multiset(),
{
    let ghost ndv = nodes.deep_view();
    let ghost edv = edges.deep_view();
    let ghost pred: spec_fn(Seq<char>) -> bool = if role == 0 {
        root_pred(edv)
    } else if role == 1 {
        leaf_pred(edv)
    } else {
        bridge_pred(edv)
    };
    let mut picked: Vec<String> = Vec::new();
    let mut k: usize = 0;
    proof {
        reveal_with_fuel(Seq::<Seq<char>>::filter, 1);
        assert(ndv.take(0) =~= Seq::<Seq<char>>::empty());
        assert(picked.deep_view() =~= ndv.take(0).filter(pred));
    }
    while k < nodes.len()
        invariant
            k <= nodes@.len(),
            role < 3,
            ndv == nodes.deep_view(),
            ndv.len() == nodes@.len(),
            edv == edges.deep_view(),
            pred == (if role == 0 {
                root_pred(edv)
            } else if role == 1 {
                leaf_pred(edv)
            } else {
                bridge_pred(edv)
            }),
            picked.deep_view() == ndv.take(k as int).filter(pred),
        decreases nodes@.len() - k,
    {
        let name = &nodes[k];
        let ghost x = ndv[k as int];
        proof {
            assert(x == nodes@[k as int]@);
        }
        let ind = count_in(edges, name.as_str());
        let outd = count_out(edges, name.as_str());
        let hit: bool = if role == 0 {
            ind == 0
        } else if role == 1 {
            outd == 0
        } else {
            ind > 0 && outd > 0
        };
        let ghost prev = picked.deep_view();
        if hit {
            picked.push(name.clone());
            proof {
                assert(picked.deep_view() =~~= prev.push(x));
            }
        }
        proof {
            reveal_with_fuel(Seq::<Seq<char>>::filter, 2);
            let t = ndv.take(k as int + 1);
            assert(t.drop_last() =~= ndv.take(k as int));
            assert(t.last() == x);
            assert(t.filter(pred) == if pred(x) {
                t.drop_last().filter(pred).push(x)
            } else {
                t.drop_last().filter(pred)
            });
            assert(pred(x) == hit);
            assert(picked.deep_view() == t.filter(pred));
        }
        k = k + 1;
    }
    proof {
        assert(ndv.take(ndv.len() as int) =~= ndv);
    }
    sort_names(picked)
}


// ---------------------------------------------------------------------------
// Reachability closure
// ---------------------------------------------------------------------------

pub open spec fn mat_shape(m: Seq<Seq<bool>>, n: int) -> bool {
    m.len() == n && forall|i: int| 0 <= i < n ==> (#[trigger] m[i]).len() == n
}

pub open spec fn mat_sound(
    m: Seq<Seq<bool>>,
    nodes: Seq<Seq<char>>,
    edges: Seq<(Seq<char>, Seq<char>)>,
) -> bool {
    forall|i: int, j: int|
        0 <= i < nodes.len() && 0 <= j < nodes.len() && (#[trigger] m[i][j]) ==> reaches(
            nodes,
            edges,
            i,
            j,
        )
}

pub open spec fn mat_has_adj(
    m: Seq<Seq<bool>>,
    nodes: Seq<Seq<char>>,
    edges: Seq<(Seq<char>, Seq<char>)>,
) -> bool {
    forall|i: int, j: int|
        0 <= i < nodes.len() && 0 <= j < nodes.len() && spec_adj(nodes, edges, i, j)
            ==> #[trigger] m[i][j]
}

pub open spec fn mat_closed(m: Seq<Seq<bool>>, n: int) -> bool {
    forall|i: int, k: int, j: int|
        0 <= i < n && 0 <= k < n && 0 <= j < n && (#[trigger] m[i][k]) && (#[trigger] m[k][j])
            ==> m[i][j]
}

/// Count of false cells in one row, from `j` on.
pub open spec fn row_falses(row: Seq<bool>, j: int) -> nat
    decreases row.len() - j when 0 <= j
{
    if j >= row.len() {
        0
    } else {
        (if row[j] {
            0nat
        } else {
            1nat
        }) + row_falses(row, j + 1)
    }
}

/// Count of false cells in the rows from `i` on.
pub open spec fn mat_falses(m: Seq<Seq<bool>>, i: int) -> nat
    decreases m.len() - i when 0 <= i
{
    if i >= m.len() {
        0
    } else {
        row_falses(m[i], 0) + mat_falses(m, i + 1)
    }
}

proof fn lemma_row_falses_update(row: Seq<bool>, t: int, j: int)
    requires
        0 <= j <= t < row.len(),
        !row[t],
    ensures
        row_falses(row.update(t, true), j) + 1 == row_falses(row, j),
    decreases t - j,
{
    let r2 = row.update(t, true);
    if j == t {
        assert forall|k: int| t < k <= row.len() implies row_falses(r2, k) == row_falses(
            row,
            k,
        ) by {
            lemma_row_falses_same(row, r2, k);
        }
    } else {
        lemma_row_falses_update(row, t, j + 1);
    }
}

proof fn lemma_row_falses_same(a: Seq<bool>, b: Seq<bool>, j: int)
    requires
        0 <= j,
        a.len() == b.len(),
        forall|k: int| j <= k < a.len() ==> a[k] == b[k],
    ensures
        row_falses(a, j) == row_falses(b, j),
    decreases a.len() - j,
{
    if j < a.len() {
        lemma_row_falses_same(a, b, j + 1);
    }
}

proof fn lemma_mat_falses_update(m: Seq<Seq<bool>>, r: int, t: int, i: int)
    requires
        0 <= i <= r < m.len(),
        0 <= t < m[r].len(),
        !m[r][t],
    ensures
        mat_falses(m.update(r, m[r].update(t, true)), i) + 1 == mat_falses(m, i),
    decreases r - i,
{
    let m2 = m.update(r, m[r].update(t, true));
    if i == r {
        lemma_row_falses_update(m[r], t, 0);
        lemma_mat_falses_rows_same(m, m2, i + 1);
    } else {
        lemma_mat_falses_update(m, r, t, i + 1);
    }
}

proof fn lemma_mat_falses_rows_same(a: Seq<Seq<bool>>, b: Seq<Seq<bool>>, i: int)
    requires
        0 <= i,
        a.len() == b.len(),
        forall|k: int| i <= k < a.len() ==> a[k] == b[k],
    ensures
        mat_falses(a, i) == mat_falses(b, i),
    decreases a.len() - i,
{
    if i < a.len() {
        lemma_mat_falses_rows_same(a, b, i + 1);
    }
}

/// Any walk lands in a matrix that holds the edges and is closed under
/// composition.
proof fn lemma_closed_complete(
    m: Seq<Seq<bool>>,
    nodes: Seq<Seq<char>>,
    edges: Seq<(Seq<char>, Seq<char>)>,
    p: Seq<int>,
)
    requires
        mat_shape(m, nodes.len() as int),
        mat_has_adj(m, nodes, edges),
        mat_closed(m, nodes.len() as int),
        is_walk(nodes, edges, p),
    ensures
        m[p.first()][p.last()],
    decreases p.len(),
{
    if p.len() == 2 {
        assert(spec_adj(nodes, edges, p[0], p[1]));
    } else {
        let q = p.drop_last();
        assert(q.len() >= 2);
        assert forall|k: int| 0 <= k < q.len() - 1 implies spec_adj(
            nodes,
            edges,
            #[trigger] q[k],
            q[k + 1],
        ) by {
            assert(q[k] == p[k]);
            assert(q[k + 1] == p[k + 1]);
            assert(spec_adj(nodes, edges, p[k], p[k + 1]));
        }
        assert(is_walk(nodes, edges, q));
        lemma_closed_complete(m, nodes, edges, q);
        assert(spec_adj(nodes, edges, p[p.len() - 2], p[p.len() - 1]));
        assert(m[q.last()][p.last()]);
        assert(m[p.first()][q.last()]);
    }
}

proof fn lemma_sound_at(
    m: Seq<Seq<bool>>,
    nodes: Seq<Seq<char>>,
    edges: Seq<(Seq<char>, Seq<char>)>,
    i: int,
    j: int,
)
    requires
        mat_sound(m, nodes, edges),
        0 <= i < nodes.len(),
        0 <= j < nodes.len(),
        m[i][j],
    ensures
        reaches(nodes, edges, i, j),
{
    assert(m[i][j]);
}

/// One sweep over all (i, k, j) triples: joins every pair of reachabilities
/// it sees. Reports whether any cell changed.
fn closure_pass(
    r: &mut Vec<Vec<bool>>,
    nodes: Ghost<Seq<Seq<char>>>,
    edges: Ghost<Seq<(Seq<char>, Seq<char>)>>,
) -> (changed: bool)
    requires
        mat_shape(old(r).deep_view(), nodes@.len() as int),
        mat_sound(old(r).deep_view(), nodes@, edges@),
        mat_has_adj(old(r).deep_view(), nodes@, edges@),
    ensures
        mat_shape(final(r).deep_view(), nodes@.len() as int),
        mat_sound(final(r).deep_view(), nodes@, edges@),
        mat_has_adj(final(r).deep_view(), nodes@, edges@),
        changed ==> mat_falses(final(r).deep_view(), 0) < mat_falses(old(r).deep_view(), 0),
        !changed ==> final(r).deep_view() == old(r).deep_view() && mat_closed(
            final(r).deep_view(),
            nodes@.len() as int,
        ),
{
    let ghost m0 = r.deep_view();
    let ghost n = nodes@.len() as int;
    let nn = r.len();
    let mut changed: bool = false;
    let mut i: usize = 0;
    while i < nn
        invariant
            i <= nn,
            nn as int == n,
            n == nodes@.len(),
            r@.len() == nn,
            mat_shape(r.deep_view(), n),
            mat_sound(r.deep_view(), nodes@, edges@),
            mat_has_adj(r.deep_view(), nodes@, edges@),
            changed ==> mat_falses(r.deep_view(), 0) < mat_falses(m0, 0),
            !changed ==> r.deep_view() == m0,
            !changed ==> forall|i2: int, k2: int, j2: int|
                0 <= i2 < i && 0 <= k2 < n && 0 <= j2 < n && (#[trigger] r.deep_view()[i2][k2])
                    && (#[trigger] r.deep_view()[k2][j2]) ==> r.deep_view()[i2][j2],
        decreases nn - i,
    {
        let mut k: usize = 0;
        while k < nn
            invariant
                i < nn,
                k <= nn,
                nn as int == n,
                n == nodes@.len(),
                r@.len() == nn,
                mat_shape(r.deep_view(), n),
                mat_sound(r.deep_view(), nodes@, edges@),
                mat_has_adj(r.deep_view(), nodes@, edges@),
                changed ==> mat_falses(r.deep_view(), 0) < mat_falses(m0, 0),
                !changed ==> r.deep_view() == m0,
                !changed ==> forall|i2: int, k2: int, j2: int|
                    0 <= i2 < i && 0 <= k2 < n && 0 <= j2 < n && (#[trigger] r.deep_view()[i2][k2])
                        && (#[trigger] r.deep_view()[k2][j2]) ==> r.deep_view()[i2][j2],
                !changed ==> forall|k2: int, j2: int|
                    0 <= k2 < k && 0 <= j2 < n && (#[trigger] r.deep_view()[i as int][k2]) && (
                    #[trigger] r.deep_view()[k2][j2]) ==> r.deep_view()[i as int][j2],
            decreases nn - k,
        {
            let mut j: usize = 0;
            while j < nn
                invariant
                    i < nn,
                    k < nn,
                    j <= nn,
                    nn as int == n,
                    n == nodes@.len(),
                    r@.len() == nn,
                    mat_shape(r.deep_view(), n),
                    mat_sound(r.deep_view(), nodes@, edges@),
                    mat_has_adj(r.deep_view(), nodes@, edges@),
                    changed ==> mat_falses(r.deep_view(), 0) < mat_falses(m0, 0),
                    !changed ==> r.deep_view() == m0,
                    !changed ==> forall|i2: int, k2: int, j2: int|
                        0 <= i2 < i && 0 <= k2 < n && 0 <= j2 < n && (#[trigger] r.deep_view(
                        )[i2][k2]) && (#[trigger] r.deep_view()[k2][j2]) ==> r.deep_view(
                        )[i2][j2],
                    !changed ==> forall|k2: int, j2: int|
                        0 <= k2 < k && 0 <= j2 < n && (#[trigger] r.deep_view()[i as int][k2])
                            && (#[trigger] r.deep_view()[k2][j2]) ==> r.deep_view()[i as int][j2],
                    !changed ==> forall|j2: int|
                        0 <= j2 < j && (#[trigger] r.deep_view()[k as int][j2]) && r.deep_view(
                        )[i as int][k as int] ==> r.deep_view()[i as int][j2],
                decreases nn - j,
            {
                proof {
                    assert(r.deep_view()[i as int] =~= r@[i as int].deep_view());
                    assert(r.deep_view()[k as int] =~= r@[k as int].deep_view());
                    assert(r@[i as int]@.len() == n);
                    assert(r@[k as int]@.len() == n);
                }
                let rik = r[i][k];
                let rkj = r[k][j];
                let rij = r[i][j];
                proof {
                    assert(r.deep_view()[i as int] =~= r@[i as int].deep_view());
                    assert(rik == r.deep_view()[i as int][k as int]);
                    assert(r.deep_view()[k as int] =~= r@[k as int].deep_view());
                    assert(rkj == r.deep_view()[k as int][j as int]);
                    assert(rij == r.deep_view()[i as int][j as int]);
                }
                if rik && rkj && !rij {
                    proof {
                        assert(r.deep_view()[i as int][k as int]);
                        assert(r.deep_view()[k as int][j as int]);
                        lemma_sound_at(r.deep_view(), nodes@, edges@, i as int, k as int);
                        lemma_sound_at(r.deep_view(), nodes@, edges@, k as int, j as int);
                    }
                    let ghost before = r.deep_view();
                    r[i][j] = true;
                    proof {
                        assert(r@[i as int].deep_view() =~= before[i as int].update(
                            j as int,
                            true,
                        ));
                        assert(r.deep_view() =~~= before.update(
                            i as int,
                            before[i as int].update(j as int, true),
                        ));
                        lemma_mat_falses_update(before, i as int, j as int, 0);
                        if !changed {
                            assert(mat_falses(r.deep_view(), 0) < mat_falses(m0, 0));
                        }
                        lemma_reaches_trans(nodes@, edges@, i as int, k as int, j as int);
                        assert forall|a: int, b: int|
                            0 <= a < n && 0 <= b < n && (#[trigger] r.deep_view()[a][b])
                                implies reaches(nodes@, edges@, a, b) by {
                            if a == i as int && b == j as int {
                            } else {
                                assert(r.deep_view()[a][b] == before[a][b]);
                            }
                        }
                        assert forall|a: int, b: int|
                            0 <= a < n && 0 <= b < n && spec_adj(nodes@, edges@, a, b)
                                implies #[trigger] r.deep_view()[a][b] by {
                            if a == i as int && b == j as int {
                            } else {
                                assert(r.deep_view()[a][b] == before[a][b]);
                            }
                        }
                    }
                    changed = true;
                }
                j = j + 1;
            }
            k = k + 1;
        }
        i = i + 1;
    }
    changed
}

/// The reachability closure: cell (i, j) says node `j` is reachable from
/// node `i` along at least one edge.
fn build_closure(nodes: &Vec<String>, edges: &Vec<(String, String)>) -> (r: Vec<Vec<bool>>)
    ensures
        mat_shape(r.deep_view(), nodes.deep_view().len() as int),
        forall|i: int, j: int|
            0 <= i < nodes.deep_view().len() && 0 <= j < nodes.deep_view().len() ==> (
            (#[trigger] r.deep_view()[i][j]) <==> reaches(nodes.deep_view(), edges.deep_view(), i, j)),
{
    let ghost ndv = nodes.deep_view();
    let ghost edv = edges.deep_view();
    let n = nodes.len();
    // the adjacency matrix
    let mut m: Vec<Vec<bool>> = Vec::new();
    let mut i: usize = 0;
    while i < n
        invariant
            i <= n,
            n == nodes@.len(),
            ndv == nodes.deep_view(),
            edv == edges.deep_view(),
            m@.len() == i,
            m.deep_view().len() == i,
            forall|a: int| 0 <= a < i ==> (#[trigger] m.deep_view()[a]).len() == n,
            forall|a: int, b: int|
                0 <= a < i && 0 <= b < n ==> ((#[trigger] m.deep_view()[a][b]) <==> spec_adj(
                    ndv,
                    edv,
                    a,
                    b,
                )),
        decreases n - i,
    {
        let mut row: Vec<bool> = Vec::new();
        let mut j: usize = 0;
        while j < n
            invariant
                j <= n,
                i < n,
                n == nodes@.len(),
                ndv == nodes.deep_view(),
                edv == edges.deep_view(),
                row@.len() == j,
                forall|b: int|
                    0 <= b < j ==> ((#[trigger] row@[b]) <==> spec_adj(ndv, edv, i as int, b)),
            decreases n - j,
        {
            let has = contains_pair(edges, nodes[i].as_str(), nodes[j].as_str());
            proof {
                assert(ndv[i as int] == nodes@[i as int]@);
                assert(ndv[j as int] == nodes@[j as int]@);
            }
            row.push(has);
            j = j + 1;
        }
        let ghost prevm = m.deep_view();
        let ghost rowv = row@;
        m.push(row);
        proof {
            assert(m.deep_view() =~~= prevm.push(rowv));
        }
        i = i + 1;
    }
    proof {
        assert(mat_shape(m.deep_view(), n as int));
        assert forall|a: int, b: int|
            0 <= a < n && 0 <= b < n && (#[trigger] m.deep_view()[a][b]) implies reaches(
            ndv,
            edv,
            a,
            b,
        ) by {
            let p = seq![a, b];
            assert(p.first() == a);
            assert(p.last() == b);
            assert(spec_adj(ndv, edv, p[0], p[1]));
            assert(is_walk(ndv, edv, p));
        }
    }
    // iterate the closure sweep to a fixed point
    let mut r = m;
    let mut changed: bool = true;
    while changed
        invariant
            n == nodes@.len(),
            ndv == nodes.deep_view(),
            edv == edges.deep_view(),
            r@.len() == n,
            mat_shape(r.deep_view(), n as int),
            mat_sound(r.deep_view(), ndv, edv),
            mat_has_adj(r.deep_view(), ndv, edv),
            !changed ==> mat_closed(r.deep_view(), n as int),
        decreases mat_falses(r.deep_view(), 0) + (if changed {
            1int
        } else {
            0int
        }),
    {
        changed = closure_pass(&mut r, Ghost(ndv), Ghost(edv));
    }
    proof {
        assert forall|a: int, b: int|
            0 <= a < n && 0 <= b < n && reaches(ndv, edv, a, b) implies #[trigger] r.deep_view(
        )[a][b] by {
            let p = choose|p: Seq<int>|
                is_walk(ndv, edv, p) && p.first() == a && p.last() == b;
            lemma_closed_complete(r.deep_view(), ndv, edv, p);
        }
    }
    r
}


// ---------------------------------------------------------------------------
// Clusters
// ---------------------------------------------------------------------------

proof fn lemma_mutual_step(
    nodes: Seq<Seq<char>>,
    edges: Seq<(Seq<char>, Seq<char>)>,
    r: int,
    x: int,
    y: int,
)
    requires
        mutual(nodes, edges, r, x),
        mutual(nodes, edges, x, y),
    ensures
        mutual(nodes, edges, r, y),
{
    lemma_reaches_trans(nodes, edges, r, x, y);
    lemma_reaches_trans(nodes, edges, y, x, r);
}

/// Whether some element of the index list equals `w`.
pub open spec fn idx_has(s: Seq<usize>, w: int) -> bool {
    exists|t: int| 0 <= t < s.len() && (#[trigger] s[t]) as int == w
}

/// Groups of mutually reachable nodes, sized two or more. The matrix `r`
/// must be the reachability closure of the graph.
fn build_clusters(
    nodes: &Vec<String>,
    r: &Vec<Vec<bool>>,
    edges: Ghost<Seq<(Seq<char>, Seq<char>)>>,
) -> (cls: Vec<Vec<String>>)
    requires
        mat_shape(r.deep_view(), nodes.deep_view().len() as int),
        all_distinct(nodes.deep_view()),
        forall|i: int, j: int|
            0 <= i < nodes.deep_view().len() && 0 <= j < nodes.deep_view().len() ==> (
            (#[trigger] r.deep_view()[i][j]) <==> reaches(nodes.deep_view(), edges@, i, j)),
    ensures
        clusters_wf(cls.deep_view(), nodes.deep_view(), edges@),
{
    let ghost ndv = nodes.deep_view();
    let ghost edv = edges@;
    let n = nodes.len();
    let mut assigned: Vec<bool> = Vec::new();
    let mut z: usize = 0;
    while z < n
        invariant
            z <= n,
            assigned@.len() == z,
            forall|m: int| 0 <= m < z ==> !(#[trigger] assigned@[m]),
        decreases n - z,
    {
        assigned.push(false);
        z = z + 1;
    }
    let mut clusters: Vec<Vec<String>> = Vec::new();
    let mut reps_tracker: Ghost<Seq<int>> = Ghost(Seq::empty());
    let mut i: usize = 0;
    while i < n
        invariant
            i <= n,
            n == nodes@.len(),
            ndv == nodes.deep_view(),
            ndv.len() == n,
            edv == edges@,
            all_distinct(ndv),
            mat_shape(r.deep_view(), n as int),
            forall|a: int, b: int|
                0 <= a < n && 0 <= b < n ==> ((#[trigger] r.deep_view()[a][b]) <==> reaches(
                    ndv,
                    edv,
                    a,
                    b,
                )),
            assigned@.len() == n,
            reps_tracker@.len() == clusters.deep_view().len(),
            forall|c: int|
                0 <= c < clusters.deep_view().len() ==> 0 <= #[trigger] reps_tracker@[c] < n,
            forall|c: int|
                0 <= c < clusters.deep_view().len() ==> (#[trigger] clusters.deep_view()[c]).len()
                    >= 2,
            forall|c: int, j: int|
                0 <= c < clusters.deep_view().len() && 0 <= j < n ==> ((
                #[trigger] clusters.deep_view()[c].contains(ndv[j])) <==> (j == reps_tracker@[c]
                    || mutual(ndv, edv, reps_tracker@[c], j))),
            forall|c: int, a: int|
                0 <= c < clusters.deep_view().len() && 0 <= a < clusters.deep_view()[c].len()
                    ==> exists|w: int|
                    0 <= w < n && ndv[w] == #[trigger] clusters.deep_view()[c][a],
            forall|c1: int, a1: int, c2: int, a2: int|
                0 <= c1 < clusters.deep_view().len() && 0 <= a1 < clusters.deep_view()[c1].len()
                    && 0 <= c2 < clusters.deep_view().len() && 0 <= a2 < clusters.deep_view()[
                c2].len() && (c1 != c2 || a1 != a2) ==> (#[trigger] clusters.deep_view()[c1][a1])
                    != (#[trigger] clusters.deep_view()[c2][a2]),
            forall|m: int|
                0 <= m < n ==> ((#[trigger] assigned@[m]) <==> exists|c: int|
                    0 <= c < clusters.deep_view().len() && (#[trigger] clusters.deep_view()[
                    c]).contains(ndv[m])),
            forall|m: int, j: int|
                0 <= m < i && 0 <= j < n && j != m && !(#[trigger] assigned@[m]) ==> !(
                #[trigger] mutual(ndv, edv, m, j)),
        decreases n - i,
    {
        if !assigned[i] {
            // the class of node i
            let mut midx: Vec<usize> = Vec::new();
            let mut j: usize = 0;
            while j < n
                invariant
                    j <= n,
                    i < n,
                    n == nodes@.len(),
                    ndv == nodes.deep_view(),
                    ndv.len() == n,
                    edv == edges@,
                    mat_shape(r.deep_view(), n as int),
                    forall|a: int, b: int|
                        0 <= a < n && 0 <= b < n ==> ((#[trigger] r.deep_view()[a][b])
                            <==> reaches(ndv, edv, a, b)),
                    forall|t: int| 0 <= t < midx@.len() ==> (#[trigger] midx@[t]) < j,
                    forall|t: int, u: int| 0 <= t < u < midx@.len() ==> midx@[t] < midx@[u],
                    forall|w: int|
                        0 <= w < j ==> (#[trigger] idx_has(midx@, w) <==> (w == i as int
                            || mutual(ndv, edv, i as int, w))),
                decreases n - j,
            {
                proof {
                    assert(r.deep_view()[i as int] =~= r@[i as int].deep_view());
                    assert(r.deep_view()[j as int] =~= r@[j as int].deep_view());
                    assert(r@[i as int]@.len() == n);
                    assert(r@[j as int]@.len() == n);
                }
                let cond = j == i || (r[i][j] && r[j][i]);
                let ghost before_m = midx@;
                if cond {
                    midx.push(j);
                    proof {
                        assert(midx@ =~= before_m.push(j));
                        if j as int != i as int {
                            assert(r.deep_view()[i as int][j as int]);
                            assert(r.deep_view()[j as int][i as int]);
                            assert(mutual(ndv, edv, i as int, j as int));
                        }
                    }
                }
                proof {
                    assert forall|w: int| 0 <= w < j + 1 implies (#[trigger] idx_has(midx@, w)
                        <==> (w == i as int || mutual(ndv, edv, i as int, w))) by {
                        if w < j {
                            assert(idx_has(before_m, w) <==> (w == i as int || mutual(
                                ndv,
                                edv,
                                i as int,
                                w,
                            )));
                            if idx_has(before_m, w) {
                                let t = choose|t: int|
                                    0 <= t < before_m.len() && (#[trigger] before_m[t]) as int
                                        == w;
                                assert(midx@[t] as int == w);
                                assert(idx_has(midx@, w));
                            }
                            if idx_has(midx@, w) {
                                let t = choose|t: int|
                                    0 <= t < midx@.len() && (#[trigger] midx@[t]) as int == w;
                                if t < before_m.len() {
                                    assert(before_m[t] as int == w);
                                    assert(idx_has(before_m, w));
                                } else {
                                    assert(midx@[t] as int == j as int);
                                }
                            }
                        } else {
                            if cond {
                                assert(midx@[midx@.len() - 1] as int == j as int);
                                assert(idx_has(midx@, w));
                            } else {
                                if idx_has(midx@, w) {
                                    let t = choose|t: int|
                                        0 <= t < midx@.len() && (#[trigger] midx@[t]) as int
                                            == w;
                                    assert(before_m[t] < j);
                                    assert(false);
                                }
                                if mutual(ndv, edv, i as int, j as int) {
                                    assert(reaches(ndv, edv, i as int, j as int));
                                    assert(reaches(ndv, edv, j as int, i as int));
                                    assert(r.deep_view()[i as int][j as int]);
                                    assert(r.deep_view()[j as int][i as int]);
                                    assert(false);
                                }
                            }
                        }
                    }
                }
                j = j + 1;
            }
            if midx.len() >= 2 {
                // emit the cluster and mark its members
                let mut names: Vec<String> = Vec::new();
                let mut t: usize = 0;
                let ghost asg0 = assigned@;
                while t < midx.len()
                    invariant
                        t <= midx@.len(),
                        i < n,
                        n == nodes@.len(),
                        ndv == nodes.deep_view(),
                        ndv.len() == n,
                        assigned@.len() == n,
                        asg0.len() == n,
                        forall|u: int| 0 <= u < midx@.len() ==> (#[trigger] midx@[u]) < n,
                        forall|u: int, v: int| 0 <= u < v < midx@.len() ==> midx@[u] < midx@[v],
                        names.deep_view().len() == t,
                        forall|u: int|
                            0 <= u < t ==> (#[trigger] names.deep_view()[u]) == ndv[midx@[
                            u] as int],
                        forall|m: int|
                            0 <= m < n ==> ((#[trigger] assigned@[m]) == (asg0[m] || exists|u: int|
                                0 <= u < t && (#[trigger] midx@[u]) as int == m)),
                    decreases midx@.len() - t,
                {
                    let idx = midx[t];
                    let ghost prevn = names.deep_view();
                    let ghost prevasg = assigned@;
                    names.push(nodes[idx].clone());
                    assigned[idx] = true;
                    proof {
                        assert(names.deep_view() =~~= prevn.push(ndv[idx as int]));
                        assert(assigned@ =~= prevasg.update(idx as int, true));
                        assert forall|m: int|
                            0 <= m < n implies ((#[trigger] assigned@[m]) == (asg0[m] || exists|
                        u: int|
                            0 <= u < t + 1 && (#[trigger] midx@[u]) as int == m)) by {
                            if m == idx as int {
                                assert(midx@[t as int] as int == m);
                            } else {
                                if exists|u: int|
                                    0 <= u < t + 1 && (#[trigger] midx@[u]) as int == m {
                                    let u = choose|u: int|
                                        0 <= u < t + 1 && (#[trigger] midx@[u]) as int == m;
                                    assert(u < t);
                                }
                            }
                        }
                    }
                    t = t + 1;
                }
                let ghost prevc = clusters.deep_view();
                let ghost namesv = names.deep_view();
                let ghost reps_old = reps_tracker@;
                clusters.push(names);
                proof {
                    // no new member was already assigned: a marked member would
                    // put the representative itself into that earlier cluster
                    assert forall|u: int| 0 <= u < midx@.len() implies !asg0[(
                    #[trigger] midx@[u]) as int] by {
                        let m = midx@[u] as int;
                        if asg0[m] {
                            let c2 = choose|c2: int|
                                0 <= c2 < prevc.len() && (#[trigger] prevc[c2]).contains(ndv[m]);
                            let r2 = reps_old[c2];
                            assert(m == r2 || mutual(ndv, edv, r2, m));
                            assert(idx_has(midx@, m));
                            assert(m == i as int || mutual(ndv, edv, i as int, m));
                            if m == i as int {
                                assert(asg0[i as int]);
                                assert(false);
                            } else {
                                if m == r2 {
                                    assert(mutual(ndv, edv, r2, i as int));
                                } else {
                                    lemma_mutual_step(ndv, edv, r2, m, i as int);
                                }
                                assert(prevc[c2].contains(ndv[i as int]));
                                assert(asg0[i as int]);
                                assert(false);
                            }
                        }
                    }
                    reps_tracker@ = reps_tracker@.push(i as int);
                    assert(clusters.deep_view() =~~= prevc.push(namesv));
                    // the new cluster holds exactly the class of i
                    assert forall|j2: int|
                        0 <= j2 < n implies ((#[trigger] namesv.contains(ndv[j2])) <==> (j2
                            == i as int || mutual(ndv, edv, i as int, j2))) by {
                        if namesv.contains(ndv[j2]) {
                            let a = choose|a: int|
                                0 <= a < namesv.len() && namesv[a] == ndv[j2];
                            assert(namesv[a] == ndv[midx@[a] as int]);
                            assert(ndv[midx@[a] as int] == ndv[j2]);
                            assert(midx@[a] as int == j2);
                            assert(idx_has(midx@, j2));
                        }
                        if j2 == i as int || mutual(ndv, edv, i as int, j2) {
                            assert(idx_has(midx@, j2));
                            let u = choose|u: int|
                                0 <= u < midx@.len() && (#[trigger] midx@[u]) as int == j2;
                            assert(namesv[u] == ndv[midx@[u] as int]);
                            assert(namesv[u] == ndv[j2]);
                            assert(namesv.contains(ndv[j2]));
                        }
                    }
                    // members are distinct names
                    assert forall|a: int, b: int|
                        0 <= a < namesv.len() && 0 <= b < namesv.len() && a != b implies namesv[a]
                            != namesv[b] by {
                        assert(namesv[a] == ndv[midx@[a] as int]);
                        assert(namesv[b] == ndv[midx@[b] as int]);
                        if a < b {
                            assert(midx@[a] < midx@[b]);
                        } else {
                            assert(midx@[b] < midx@[a]);
                        }
                    }
                    // and distinct from every name in every earlier cluster
                    let cls2b = clusters.deep_view();
                    assert forall|c1: int, a1: int, c2: int, a2: int|
                        0 <= c1 < cls2b.len() && 0 <= a1 < cls2b[c1].len() && 0 <= c2
                            < cls2b.len() && 0 <= a2 < cls2b[c2].len() && (c1 != c2 || a1 != a2)
                            implies (#[trigger] cls2b[c1][a1]) != (#[trigger] cls2b[c2][a2]) by {
                        let ci2 = cls2b.len() - 1;
                        if c1 < ci2 && c2 < ci2 {
                            assert(cls2b[c1] == prevc[c1]);
                            assert(cls2b[c2] == prevc[c2]);
                        } else if c1 == ci2 && c2 == ci2 {
                            assert(cls2b[c1][a1] == namesv[a1]);
                            assert(cls2b[c2][a2] == namesv[a2]);
                        } else {
                            let co = if c1 < ci2 {
                                c1
                            } else {
                                c2
                            };
                            let ao = if c1 < ci2 {
                                a1
                            } else {
                                a2
                            };
                            let an = if c1 < ci2 {
                                a2
                            } else {
                                a1
                            };
                            assert(cls2b[co] == prevc[co]);
                            let w = choose|w: int| 0 <= w < n && ndv[w] == prevc[co][ao];
                            assert(prevc[co].contains(ndv[w]));
                            assert(asg0[w]);
                            assert(namesv[an] == ndv[midx@[an] as int]);
                            assert(!asg0[midx@[an] as int]);
                            if prevc[co][ao] == namesv[an] {
                                assert(ndv[w] == ndv[midx@[an] as int]);
                                assert(w == midx@[an] as int);
                                assert(false);
                            }
                        }
                    }
                    // every member is a node name
                    assert forall|a: int| 0 <= a < namesv.len() implies exists|w: int|
                        0 <= w < n && ndv[w] == #[trigger] namesv[a] by {
                        assert(namesv[a] == ndv[midx@[a] as int]);
                        assert((midx@[a] as int) < n);
                    }
                    // every member name sits at a node index
                    let cls2 = clusters.deep_view();
                    let ci = cls2.len() - 1;
                    assert(cls2[ci] == namesv);
                    assert forall|c2: int, a: int|
                        0 <= c2 < cls2.len() && 0 <= a < cls2[c2].len() implies exists|w: int|
                        0 <= w < n && ndv[w] == #[trigger] cls2[c2][a] by {
                        if c2 < ci {
                            assert(cls2[c2] == prevc[c2]);
                        } else {
                            assert(cls2[c2][a] == namesv[a]);
                            assert(namesv[a] == ndv[midx@[a] as int]);
                            assert((midx@[a] as int) < n);
                        }
                    }
                    // the representative itself was marked
                    assert(idx_has(midx@, i as int));
                    let u0 = choose|u: int|
                        0 <= u < midx@.len() && (#[trigger] midx@[u]) as int == i as int;
                    assert(assigned@[i as int]);
                    // membership in a cluster matches the markings
                    assert forall|m: int|
                        0 <= m < n implies ((#[trigger] assigned@[m]) <==> exists|c2: int|
                            0 <= c2 < cls2.len() && (#[trigger] cls2[c2]).contains(ndv[m])) by {
                        if assigned@[m] {
                            if asg0[m] {
                                let c2 = choose|c2: int|
                                    0 <= c2 < prevc.len() && (#[trigger] prevc[c2]).contains(
                                        ndv[m],
                                    );
                                assert(cls2[c2] == prevc[c2]);
                                assert(cls2[c2].contains(ndv[m]));
                            } else {
                                assert(exists|u: int|
                                    0 <= u < midx@.len() && (#[trigger] midx@[u]) as int == m);
                                assert(idx_has(midx@, m));
                                assert(m == i as int || mutual(ndv, edv, i as int, m));
                                assert(namesv.contains(ndv[m]));
                                assert(cls2[ci].contains(ndv[m]));
                            }
                        } else {
                            if exists|c2: int|
                                0 <= c2 < cls2.len() && (#[trigger] cls2[c2]).contains(ndv[m]) {
                                let c2 = choose|c2: int|
                                    0 <= c2 < cls2.len() && (#[trigger] cls2[c2]).contains(
                                        ndv[m],
                                    );
                                if c2 < ci {
                                    assert(prevc[c2].contains(ndv[m]));
                                    assert(exists|c3: int|
                                        0 <= c3 < prevc.len() && (#[trigger] prevc[c3]).contains(
                                            ndv[m],
                                        ));
                                    assert(asg0[m]);
                                } else {
                                    assert(namesv.contains(ndv[m]));
                                    assert(m == i as int || mutual(ndv, edv, i as int, m));
                                    assert(idx_has(midx@, m));
                                    let u = choose|u: int|
                                        0 <= u < midx@.len() && (#[trigger] midx@[u]) as int
                                            == m;
                                    assert(assigned@[m]);
                                }
                                assert(false);
                            }
                        }
                    }
                }
            } else {
                proof {
                    // the class is a singleton: i is mutual with nobody else
                    assert(idx_has(midx@, i as int));
                    assert forall|j2: int| 0 <= j2 < n && j2 != i as int implies !(
                    #[trigger] mutual(ndv, edv, i as int, j2)) by {
                        if mutual(ndv, edv, i as int, j2) {
                            assert(idx_has(midx@, j2));
                            let t1 = choose|t: int|
                                0 <= t < midx@.len() && (#[trigger] midx@[t]) as int == i as int;
                            let t2 = choose|t: int|
                                0 <= t < midx@.len() && (#[trigger] midx@[t]) as int == j2;
                            assert(t1 != t2);
                            assert(midx@.len() >= 2);
                        }
                    }
                }
            }
        }
        proof {
            assert forall|m: int, j2: int|
                0 <= m < i + 1 && 0 <= j2 < n && j2 != m && !(#[trigger] assigned@[m])
                    implies !(#[trigger] mutual(ndv, edv, m, j2)) by {
                if m < i {
                } else {
                    if mutual(ndv, edv, m, j2) {
                        assert(m == i as int);
                        assert(assigned@[m]);
                    }
                }
            }
        }
        i = i + 1;
    }
    proof {
        let cls = clusters.deep_view();
        // soundness: members of one cluster are mutually reachable
        assert forall|c: int, a: int, b: int|
            0 <= c < cls.len() && 0 <= a < cls[c].len() && 0 <= b < cls[c].len() && a != b
                implies mutual_names(ndv, edv, (#[trigger] cls[c][a]), (#[trigger] cls[c][b])) by {
            let rep = reps_tracker@[c];
            let x = choose|w: int| 0 <= w < n && ndv[w] == cls[c][a];
            let y = choose|w: int| 0 <= w < n && ndv[w] == cls[c][b];
            assert(cls[c].contains(ndv[x]));
            assert(cls[c].contains(ndv[y]));
            assert(x == rep || mutual(ndv, edv, rep, x));
            assert(y == rep || mutual(ndv, edv, rep, y));
            assert(ndv[x] != ndv[y]);
            assert(x != y);
            if x == rep {
                assert(mutual(ndv, edv, x, y));
            } else if y == rep {
                assert(mutual(ndv, edv, x, y));
            } else {
                lemma_reaches_trans(ndv, edv, x, rep, y);
                lemma_reaches_trans(ndv, edv, y, rep, x);
                assert(mutual(ndv, edv, x, y));
            }
            assert(0 <= x < ndv.len() && 0 <= y < ndv.len() && ndv[x] == cls[c][a] && ndv[y]
                == cls[c][b] && mutual(ndv, edv, x, y));
            assert(mutual_names(ndv, edv, cls[c][a], cls[c][b]));
        }
        // completeness: mutually reachable distinct nodes share a cluster
        assert forall|x: int, y: int|
            0 <= x < ndv.len() && 0 <= y < ndv.len() && x != y && #[trigger] mutual(
                ndv,
                edv,
                x,
                y,
            ) implies in_same_cluster(cls, ndv[x], ndv[y]) by {
            assert(assigned@[x]);
            let c = choose|c: int| 0 <= c < cls.len() && (#[trigger] cls[c]).contains(ndv[x]);
            let rep = reps_tracker@[c];
            assert(x == rep || mutual(ndv, edv, rep, x));
            if x == rep {
                assert(mutual(ndv, edv, rep, y));
            } else {
                lemma_mutual_step(ndv, edv, rep, x, y);
            }
            assert(cls[c].contains(ndv[y]));
            let a = choose|a: int| 0 <= a < cls[c].len() && cls[c][a] == ndv[x];
            let b = choose|b: int| 0 <= b < cls[c].len() && cls[c][b] == ndv[y];
            assert(0 <= c < cls.len() && 0 <= a < cls[c].len() && 0 <= b < cls[c].len() && (
            cls[c][a]) == ndv[x] && (cls[c][b]) == ndv[y]);
            assert(in_same_cluster(cls, ndv[x], ndv[y]));
        }
        assert forall|c: int, a: int|
            0 <= c < cls.len() && 0 <= a < cls[c].len() implies ndv.contains(
            #[trigger] cls[c][a]) by {
            let w = choose|w: int| 0 <= w < n && ndv[w] == cls[c][a];
            assert(ndv[w] == cls[c][a]);
        }
        assert(clusters_wf(cls, ndv, edv));
    }
    clusters
}

impl SkillGraph {
    /// Builds the graph from cross-reference data and runs the analysis.
    pub fn from_crossrefs(crossrefs: &Vec<(String, Vec<CrossRef>)>) -> (g: SkillGraph)
        ensures
            graph_wf(g, crossrefs.deep_view()),
    {
        let nodes = collect_nodes(crossrefs);
        let edges = collect_edges(crossrefs);
        proof {
            lemma_node_set(crossrefs.deep_view());
        }
        let closure = build_closure(&nodes, &edges);
        let clusters = build_clusters(&nodes, &closure, Ghost(edges.deep_view()));
        let roots = select_role(&nodes, &edges, 0);
        let leaves = select_role(&nodes, &edges, 1);
        let bridges = select_role(&nodes, &edges, 2);
        SkillGraph { nodes, edges, clusters, roots, leaves, bridges }
    }
}


/// Law: a name stands among the graph's roots exactly when it is a node
/// with no incoming edge; among the leaves exactly when it is a node with
/// no outgoing edge; and among the bridges exactly when it is a node with
/// both an incoming and an outgoing edge.
pub proof fn lemma_degree_roles(g: SkillGraph, cr: Seq<(Seq<char>, Seq<CrossRefV>)>, n: Seq<char>)
    requires
        graph_wf(g, cr),
    ensures
        g.roots.deep_view().contains(n) <==> (g.nodes.deep_view().contains(n) && in_degree(
            g.edges.deep_view(),
            n,
        ) == 0),
        g.leaves.deep_view().contains(n) <==> (g.nodes.deep_view().contains(n) && out_degree(
            g.edges.deep_view(),
            n,
        ) == 0),
        g.bridges.deep_view().contains(n) <==> (g.nodes.deep_view().contains(n) && in_degree(
            g.edges.deep_view(),
            n,
        ) > 0 && out_degree(g.edges.deep_view(), n) > 0),
{
    broadcast use vstd::seq_lib::group_to_multiset_ensures;
    broadcast use vstd::seq_lib::group_filter_ensures;

    let nodes = g.nodes.deep_view();
    let edges = g.edges.deep_view();
    lemma_role_contains(g.roots.deep_view(), nodes, root_pred(edges), n);
    lemma_role_contains(g.leaves.deep_view(), nodes, leaf_pred(edges), n);
    lemma_role_contains(g.bridges.deep_view(), nodes, bridge_pred(edges), n);
}

proof fn lemma_role_contains(
    role: Seq<Seq<char>>,
    nodes: Seq<Seq<char>>,
    pred: spec_fn(Seq<char>) -> bool,
    n: Seq<char>,
)
    requires
        role.to_multiset() == nodes.filter(pred).to_multiset(),
    ensures
        role.contains(n) <==> (nodes.contains(n) && pred(n)),
{
    broadcast use vstd::seq_lib::group_to_multiset_ensures;

    let f = nodes.filter(pred);
    assert(role.contains(n) <==> role.to_multiset().count(n) > 0);
    assert(f.contains(n) <==> f.to_multiset().count(n) > 0);
    if f.contains(n) {
        let w = choose|w: int| 0 <= w < f.len() && f[w] == n;
        nodes.lemma_filter_pred(pred, w);
        nodes.lemma_filter_contains_rev(pred, n);
    }
    if nodes.contains(n) && pred(n) {
        let w = choose|w: int| 0 <= w < nodes.len() && nodes[w] == n;
        nodes.lemma_filter_contains(pred, w);
    }
}
} // verus!
