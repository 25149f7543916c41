//! The graph's four output formats, reproduced exactly: plain text with a
//! count header and sorted per-node neighbor lists, a `digraph` with
//! role-colored boxes, a JSON object of nodes, edges and clusters, and a
//! left-to-right flowchart.

use vstd::prelude::*;

use crate::graph::{out_of_pred, SkillGraph};
use crate::text::{
    chars_vec, dec_u64, push_char, push_str, sort_names, sort_spec, spec_dec, str_eq,
    vec_contains_string, clone_names,
};
use vstd::string::StringExecFns;

verus! {

// ---------------------------------------------------------------------------
// Shared pieces
// ---------------------------------------------------------------------------

/// The targets of the edges leaving `n`, in edge order, from index `k` on.
pub open spec fn targets_from(edges: Seq<(Seq<char>, Seq<char>)>, n: Seq<char>, k: int) -> Seq<
    Seq<char>,
>
    decreases edges.len() - k when 0 <= k
{
    if k >= edges.len() {
        Seq::empty()
    } else {
        (if edges[k].0 == n {
            seq![edges[k].1]
        } else {
            Seq::empty()
        }) + targets_from(edges, n, k + 1)
    }
}

/// Names joined with a separator.
pub open spec fn join_with(ts: Seq<Seq<char>>, sep: Seq<char>) -> Seq<char>
    decreases ts.len(),
{
    if ts.len() == 0 {
        Seq::empty()
    } else if ts.len() == 1 {
        ts[0]
    } else {
        join_with(ts.drop_last(), sep) + sep + ts.last()
    }
}

/// Collects the targets of edges leaving `n`.
fn targets_exec(edges: &Vec<(String, String)>, n: &str) -> (r: Vec<String>)
    ensures
        r.deep_view() == targets_from(edges.deep_view(), n@, 0),
{
    let ghost edv = edges.deep_view();
    let mut r: Vec<String> = Vec::new();
    let mut k: usize = 0;
    while k < edges.len()
        invariant
            k <= edges@.len(),
            edv == edges.deep_view(),
            edv.len() == edges@.len(),
            r.deep_view() + targets_from(edv, n@, k as int) == targets_from(edv, n@, 0),
        decreases edges@.len() - k,
    {
        let e = &edges[k];
        let ghost x = edv[k as int];
        proof {
            assert(x == edges@[k as int].deep_view());
        }
        let ghost prev = r.deep_view();
        if str_eq(e.0.as_str(), n) {
            r.push(e.1.clone());
            proof {
                assert(r.deep_view() =~~= prev.push(x.1));
            }
        }
        proof {
            assert(r.deep_view() + targets_from(edv, n@, k as int + 1) =~= prev + targets_from(
                edv,
                n@,
                k as int,
            ));
        }
        k = k + 1;
    }
    proof {
        assert(targets_from(edv, n@, k as int) =~= Seq::<Seq<char>>::empty());
        assert(r.deep_view() + Seq::<Seq<char>>::empty() =~= r.deep_view());
    }
    r
}

/// Joins names with a separator.
fn join_exec(ts: &Vec<String>, sep: &str) -> (r: String)
    ensures
        r@ == join_with(ts.deep_view(), sep@),
{
    let ghost tdv = ts.deep_view();
    let mut r = String::new();
    let mut k: usize = 0;
    proof {
        assert(tdv.take(0) =~= Seq::<Seq<char>>::empty());
        assert(r@ =~= join_with(tdv.take(0), sep@));
    }
    while k < ts.len()
        invariant
            k <= ts@.len(),
            tdv == ts.deep_view(),
            tdv.len() == ts@.len(),
            r@ == join_with(tdv.take(k as int), sep@),
        decreases ts@.len() - k,
    {
        if k > 0 {
            push_str(&mut r, sep);
        }
        push_str(&mut r, ts[k].as_str());
        proof {
            let t = tdv.take(k as int + 1);
            assert(t.drop_last() =~= tdv.take(k as int));
            assert(t.last() == tdv[k as int]);
            assert(tdv[k as int] == ts@[k as int]@);
            if k > 0 {
                assert(t.len() >= 2);
                assert(r@ =~= join_with(tdv.take(k as int), sep@) + sep@ + tdv[k as int]);
            } else {
                assert(t.len() == 1);
                assert(r@ =~= tdv[k as int]);
            }
        }
        k = k + 1;
    }
    proof {
        assert(tdv.take(tdv.len() as int) =~= tdv);
    }
    r
}

// ---------------------------------------------------------------------------
// Plain text
// ---------------------------------------------------------------------------

/// One adjacency line: the node, a colon, and its targets or "(none)".
pub open spec fn text_dep_line(n: Seq<char>, edges: Seq<(Seq<char>, Seq<char>)>) -> Seq<char> {
    let ts = targets_from(edges, n, 0);
    if ts.len() == 0 {
        n + ": (none)\n"@
    } else {
        n + ": "@ + join_with(ts, ", "@) + "\n"@
    }
}

pub open spec fn text_dep_lines(
    sorted: Seq<Seq<char>>,
    edges: Seq<(Seq<char>, Seq<char>)>,
    i: int,
) -> Seq<char>
    decreases sorted.len() - i when 0 <= i
{
    if i >= sorted.len() {
        Seq::empty()
    } else {
        text_dep_line(sorted[i], edges) + text_dep_lines(sorted, edges, i + 1)
    }
}

/// The whole plain-text report: counts, then the adjacency list over the
/// node names in sorted order.
pub open spec fn spec_to_text(g: SkillGraph) -> Seq<char> {
    "# Skill Dependency Graph\n\nSkills: "@ + spec_dec(g.nodes.deep_view().len())
        + "\nClusters: "@ + spec_dec(g.clusters.deep_view().len()) + "\nRoots: "@ + spec_dec(
        g.roots.deep_view().len(),
    ) + "\nLeaves: "@ + spec_dec(g.leaves.deep_view().len()) + "\nBridges: "@ + spec_dec(
        g.bridges.deep_view().len(),
    ) + "\n\n## Dependencies\n\n"@ + text_dep_lines(
        sort_spec(g.nodes.deep_view()),
        g.edges.deep_view(),
        0,
    )
}

// ---------------------------------------------------------------------------
// DOT
// ---------------------------------------------------------------------------

/// A node's fill color by role: root, then leaf, then bridge, else white.
pub open spec fn node_color(
    n: Seq<char>,
    roots: Seq<Seq<char>>,
    leaves: Seq<Seq<char>>,
    bridges: Seq<Seq<char>>,
) -> Seq<char> {
    if roots.contains(n) {
        "lightblue"@
    } else if leaves.contains(n) {
        "lightgreen"@
    } else if bridges.contains(n) {
        "orange"@
    } else {
        "white"@
    }
}

pub open spec fn dot_node_lines(g: SkillGraph, i: int) -> Seq<char>
    decreases g.nodes.deep_view().len() - i when 0 <= i
{
    let nodes = g.nodes.deep_view();
    if i >= nodes.len() {
        Seq::empty()
    } else {
        "  \""@ + nodes[i] + "\" [fillcolor="@ + node_color(
            nodes[i],
            g.roots.deep_view(),
            g.leaves.deep_view(),
            g.bridges.deep_view(),
        ) + ", style=\"rounded,filled\"];\n"@ + dot_node_lines(g, i + 1)
    }
}

pub open spec fn dot_edge_lines(edges: Seq<(Seq<char>, Seq<char>)>, k: int) -> Seq<char>
    decreases edges.len() - k when 0 <= k
{
    if k >= edges.len() {
        Seq::empty()
    } else {
        "  \""@ + edges[k].0 + "\" -> \""@ + edges[k].1 + "\";\n"@ + dot_edge_lines(edges, k + 1)
    }
}

/// The whole DOT document.
pub open spec fn spec_to_dot(g: SkillGraph) -> Seq<char> {
    "digraph SkillGraph {\n  rankdir=LR;\n  node [shape=box, style=rounded];\n\n"@
        + dot_node_lines(g, 0) + "\n"@ + dot_edge_lines(g.edges.deep_view(), 0) + "}\n"@
}

// ---------------------------------------------------------------------------
// JSON
// ---------------------------------------------------------------------------

/// JSON string escaping for names: backslash and double quote.
pub open spec fn json_escape(s: Seq<char>) -> Seq<char>
    decreases s.len(),
{
    if s.len() == 0 {
        Seq::empty()
    } else {
        json_escape(s.drop_last()) + (if s.last() == '"' {
            seq!['\\', '"']
        } else if s.last() == '\\' {
            seq!['\\', '\\']
        } else {
            seq![s.last()]
        })
    }
}

pub open spec fn json_bool(b: bool) -> Seq<char> {
    if b {
        "true"@
    } else {
        "false"@
    }
}

/// One node object with its role flags.
pub open spec fn json_node_obj(g: SkillGraph, n: Seq<char>) -> Seq<char> {
    "{\"id\":\""@ + json_escape(n) + "\",\"is_root\":"@ + json_bool(
        g.roots.deep_view().contains(n),
    ) + ",\"is_leaf\":"@ + json_bool(g.leaves.deep_view().contains(n)) + ",\"is_bridge\":"@
        + json_bool(g.bridges.deep_view().contains(n)) + "}"@
}

pub open spec fn json_node_objs(g: SkillGraph, i: int) -> Seq<Seq<char>>
    decreases g.nodes.deep_view().len() - i when 0 <= i
{
    let nodes = g.nodes.deep_view();
    if i >= nodes.len() {
        Seq::empty()
    } else {
        seq![json_node_obj(g, nodes[i])] + json_node_objs(g, i + 1)
    }
}

pub open spec fn json_edge_obj(a: Seq<char>, b: Seq<char>) -> Seq<char> {
    "{\"source\":\""@ + json_escape(a) + "\",\"target\":\""@ + json_escape(b) + "\"}"@
}

pub open spec fn json_edge_objs_for(
    n: Seq<char>,
    edges: Seq<(Seq<char>, Seq<char>)>,
    k: int,
) -> Seq<Seq<char>>
    decreases edges.len() - k when 0 <= k
{
    if k >= edges.len() {
        Seq::empty()
    } else {
        (if edges[k].0 == n {
            seq![json_edge_obj(n, edges[k].1)]
        } else {
            Seq::empty()
        }) + json_edge_objs_for(n, edges, k + 1)
    }
}

pub open spec fn json_edge_objs(g: SkillGraph, i: int) -> Seq<Seq<char>>
    decreases g.nodes.deep_view().len() - i when 0 <= i
{
    let nodes = g.nodes.deep_view();
    if i >= nodes.len() {
        Seq::empty()
    } else {
        json_edge_objs_for(nodes[i], g.edges.deep_view(), 0) + json_edge_objs(g, i + 1)
    }
}

pub open spec fn json_quoted_names(c: Seq<Seq<char>>, k: int) -> Seq<Seq<char>>
    decreases c.len() - k when 0 <= k
{
    if k >= c.len() {
        Seq::empty()
    } else {
        seq!["\""@ + json_escape(c[k]) + "\""@] + json_quoted_names(c, k + 1)
    }
}

pub open spec fn json_cluster_arrs(clusters: Seq<Seq<Seq<char>>>, k: int) -> Seq<Seq<char>>
    decreases clusters.len() - k when 0 <= k
{
    if k >= clusters.len() {
        Seq::empty()
    } else {
        seq!["["@ + join_with(json_quoted_names(clusters[k], 0), ","@) + "]"@]
            + json_cluster_arrs(clusters, k + 1)
    }
}

/// The whole JSON document: nodes, edges, clusters.
pub open spec fn spec_to_json(g: SkillGraph) -> Seq<char> {
    "{\"nodes\":["@ + join_with(json_node_objs(g, 0), ","@) + "],\"edges\":["@ + join_with(
        json_edge_objs(g, 0),
        ","@,
    ) + "],\"clusters\":["@ + join_with(json_cluster_arrs(g.clusters.deep_view(), 0), ","@)
        + "]}"@
}

// ---------------------------------------------------------------------------
// Mermaid
// ---------------------------------------------------------------------------

/// A name usable as a flowchart identifier: hyphens become underscores.
pub open spec fn spec_sanitize(s: Seq<char>) -> Seq<char> {
    s.map_values(
        |c: char|
            if c == '-' {
                '_'
            } else {
                c
            },
    )
}

pub open spec fn mermaid_edge_lines(edges: Seq<(Seq<char>, Seq<char>)>, k: int) -> Seq<char>
    decreases edges.len() - k when 0 <= k
{
    if k >= edges.len() {
        Seq::empty()
    } else {
        "  "@ + spec_sanitize(edges[k].0) + "["@ + edges[k].0 + "] --> "@ + spec_sanitize(
            edges[k].1,
        ) + "["@ + edges[k].1 + "]\n"@ + mermaid_edge_lines(edges, k + 1)
    }
}

/// The whole flowchart document.
pub open spec fn spec_to_mermaid(g: SkillGraph) -> Seq<char> {
    "graph LR\n"@ + mermaid_edge_lines(g.edges.deep_view(), 0)
}

/// Replaces hyphens with underscores for flowchart identifiers.
pub fn sanitize_mermaid(s: &str) -> (r: String)
    ensures
        r@ == spec_sanitize(s@),
{
    let sv = chars_vec(s);
    let mut r = String::new();
    let mut k: usize = 0;
    proof {
        assert(r@ =~= spec_sanitize(s@).take(0));
    }
    while k < sv.len()
        invariant
            k <= sv@.len(),
            sv@ == s@,
            r@ == spec_sanitize(s@).take(k as int),
        decreases sv@.len() - k,
    {
        let c = sv[k];
        if c == '-' {
            push_char(&mut r, '_');
        } else {
            push_char(&mut r, c);
        }
        proof {
            assert(spec_sanitize(s@)[k as int] == (if s@[k as int] == '-' {
                '_'
            } else {
                s@[k as int]
            }));
            assert(r@ =~= spec_sanitize(s@).take(k as int + 1));
        }
        k = k + 1;
    }
    proof {
        assert(spec_sanitize(s@).take(s@.len() as int) =~= spec_sanitize(s@));
    }
    r
}

fn json_escape_exec(s: &str) -> (r: String)
    ensures
        r@ == json_escape(s@),
{
    let sv = chars_vec(s);
    let mut r = String::new();
    let mut k: usize = 0;
    proof {
        assert(s@.take(0) =~= Seq::<char>::empty());
        assert(r@ =~= json_escape(s@.take(0)));
    }
    while k < sv.len()
        invariant
            k <= sv@.len(),
            sv@ == s@,
            r@ == json_escape(s@.take(k as int)),
        decreases sv@.len() - k,
    {
        let c = sv[k];
        if c == '"' {
            push_char(&mut r, '\\');
            push_char(&mut r, '"');
        } else if c == '\\' {
            push_char(&mut r, '\\');
            push_char(&mut r, '\\');
        } else {
            push_char(&mut r, c);
        }
        proof {
            let t = s@.take(k as int + 1);
            assert(t.drop_last() =~= s@.take(k as int));
            assert(t.last() == s@[k as int]);
            if c == '"' {
                assert(r@ =~= json_escape(s@.take(k as int)) + seq!['\\', '"']);
            } else if c == '\\' {
                assert(r@ =~= json_escape(s@.take(k as int)) + seq!['\\', '\\']);
            } else {
                assert(r@ =~= json_escape(s@.take(k as int)) + seq![s@[k as int]]);
            }
        }
        k = k + 1;
    }
    proof {
        assert(s@.take(s@.len() as int) =~= s@);
    }
    r
}

// ---------------------------------------------------------------------------
// The exporter methods
// ---------------------------------------------------------------------------

impl SkillGraph {
    /// Exports the graph as a plain-text report with counts and a sorted
    /// adjacency list.
    pub fn to_text(&self) -> (r: String)
        ensures
            r@ == spec_to_text(*self),
    {
        let mut out = String::from_str("# Skill Dependency Graph\n\nSkills: ");
        let c1 = dec_u64(self.nodes.len() as u64);
        push_str(&mut out, c1.as_str());
        push_str(&mut out, "\nClusters: ");
        let c2 = dec_u64(self.clusters.len() as u64);
        push_str(&mut out, c2.as_str());
        push_str(&mut out, "\nRoots: ");
        let c3 = dec_u64(self.roots.len() as u64);
        push_str(&mut out, c3.as_str());
        push_str(&mut out, "\nLeaves: ");
        let c4 = dec_u64(self.leaves.len() as u64);
        push_str(&mut out, c4.as_str());
        push_str(&mut out, "\nBridges: ");
        let c5 = dec_u64(self.bridges.len() as u64);
        push_str(&mut out, c5.as_str());
        push_str(&mut out, "\n\n## Dependencies\n\n");
        proof {
            assert(self.clusters.deep_view().len() == self.clusters@.len());
        }
        let sorted = sort_names(clone_names(&self.nodes));
        let ghost sdv = sort_spec(self.nodes.deep_view());
        proof {
            assert(sorted.deep_view() == sdv);
        }
        let mut i: usize = 0;
        while i < sorted.len()
            invariant
                i <= sorted@.len(),
                sorted.deep_view() == sdv,
                sdv.len() == sorted@.len(),
                out@ + text_dep_lines(sdv, self.edges.deep_view(), i as int) == spec_to_text(
                    *self,
                ),
            decreases sorted@.len() - i,
        {
            let ghost prev = out@;
            let n = &sorted[i];
            proof {
                assert(n@ == sdv[i as int]);
            }
            push_str(&mut out, n.as_str());
            let ts = targets_exec(&self.edges, n.as_str());
            if ts.len() == 0 {
                push_str(&mut out, ": (none)\n");
                proof {
                    assert(out@ =~= prev + text_dep_line(sdv[i as int], self.edges.deep_view()));
                }
            } else {
                push_str(&mut out, ": ");
                let joined = join_exec(&ts, ", ");
                push_str(&mut out, joined.as_str());
                push_str(&mut out, "\n");
                proof {
                    assert(out@ =~= prev + text_dep_line(sdv[i as int], self.edges.deep_view()));
                }
            }
            proof {
                assert(out@ + text_dep_lines(sdv, self.edges.deep_view(), i as int + 1) =~= prev
                    + text_dep_lines(sdv, self.edges.deep_view(), i as int));
            }
            i = i + 1;
        }
        proof {
            assert(text_dep_lines(sdv, self.edges.deep_view(), i as int) =~= Seq::<char>::empty());
            assert(out@ + Seq::<char>::empty() =~= out@);
        }
        out
    }

    /// Exports the graph in DOT form, nodes colored by role.
    pub fn to_dot(&self) -> (r: String)
        ensures
            r@ == spec_to_dot(*self),
    {
        let mut out = String::from_str(
            "digraph SkillGraph {\n  rankdir=LR;\n  node [shape=box, style=rounded];\n\n",
        );
        let mut i: usize = 0;
        while i < self.nodes.len()
            invariant
                i <= self.nodes@.len(),
                out@ + dot_node_lines(*self, i as int) + "\n"@ + dot_edge_lines(
                    self.edges.deep_view(),
                    0,
                ) + "}\n"@ == spec_to_dot(*self),
            decreases self.nodes@.len() - i,
        {
            let ghost prev = out@;
            let n = &self.nodes[i];
            proof {
                assert(n@ == self.nodes.deep_view()[i as int]);
            }
            push_str(&mut out, "  \"");
            push_str(&mut out, n.as_str());
            push_str(&mut out, "\" [fillcolor=");
            let color: &'static str = if vec_contains_string(&self.roots, n.as_str()) {
                "lightblue"
            } else if vec_contains_string(&self.leaves, n.as_str()) {
                "lightgreen"
            } else if vec_contains_string(&self.bridges, n.as_str()) {
                "orange"
            } else {
                "white"
            };
            push_str(&mut out, color);
            push_str(&mut out, ", style=\"rounded,filled\"];\n");
            proof {
                assert(color@ == node_color(
                    self.nodes.deep_view()[i as int],
                    self.roots.deep_view(),
                    self.leaves.deep_view(),
                    self.bridges.deep_view(),
                ));
                assert(out@ =~= prev + ("  \""@ + self.nodes.deep_view()[i as int]
                    + "\" [fillcolor="@ + node_color(
                    self.nodes.deep_view()[i as int],
                    self.roots.deep_view(),
                    self.leaves.deep_view(),
                    self.bridges.deep_view(),
                ) + ", style=\"rounded,filled\"];\n"@));
                assert(out@ + dot_node_lines(*self, i as int + 1) =~= prev + dot_node_lines(
                    *self,
                    i as int,
                ));
                assert(out@ + dot_node_lines(*self, i as int + 1) + "\n"@ + dot_edge_lines(
                    self.edges.deep_view(),
                    0,
                ) + "}\n"@ =~= prev + dot_node_lines(*self, i as int) + "\n"@ + dot_edge_lines(
                    self.edges.deep_view(),
                    0,
                ) + "}\n"@);
            }
            i = i + 1;
        }
        proof {
            assert(dot_node_lines(*self, i as int) =~= Seq::<char>::empty());
            assert(out@ + Seq::<char>::empty() =~= out@);
        }
        push_str(&mut out, "\n");
        let mut k: usize = 0;
        while k < self.edges.len()
            invariant
                k <= self.edges@.len(),
                out@ + dot_edge_lines(self.edges.deep_view(), k as int) + "}\n"@ == spec_to_dot(
                    *self,
                ),
            decreases self.edges@.len() - k,
        {
            let ghost prev = out@;
            let e = &self.edges[k];
            proof {
                assert(self.edges.deep_view()[k as int] == self.edges@[k as int].deep_view());
            }
            push_str(&mut out, "  \"");
            push_str(&mut out, e.0.as_str());
            push_str(&mut out, "\" -> \"");
            push_str(&mut out, e.1.as_str());
            push_str(&mut out, "\";\n");
            proof {
                let edv = self.edges.deep_view();
                assert(out@ =~= prev + ("  \""@ + edv[k as int].0 + "\" -> \""@ + edv[k as int].1
                    + "\";\n"@));
                assert(out@ + dot_edge_lines(edv, k as int + 1) + "}\n"@ =~= prev
                    + dot_edge_lines(edv, k as int) + "}\n"@);
            }
            k = k + 1;
        }
        proof {
            assert(dot_edge_lines(self.edges.deep_view(), k as int) =~= Seq::<char>::empty());
            assert(out@ + Seq::<char>::empty() + "}\n"@ =~= out@ + "}\n"@);
        }
        push_str(&mut out, "}\n");
        out
    }

    /// Exports the graph as one JSON object with nodes, edges and clusters.
    pub fn to_json(&self) -> (r: String)
        ensures
            r@ == spec_to_json(*self),
    {
        // node objects
        let mut nobjs: Vec<String> = Vec::new();
        let mut i: usize = 0;
        proof {
            assert(nobjs.deep_view() =~= Seq::<Seq<char>>::empty());
        }
        while i < self.nodes.len()
            invariant
                i <= self.nodes@.len(),
                nobjs.deep_view() + json_node_objs(*self, i as int) == json_node_objs(*self, 0),
            decreases self.nodes@.len() - i,
        {
            let ghost prev = nobjs.deep_view();
            let n = &self.nodes[i];
            proof {
                assert(n@ == self.nodes.deep_view()[i as int]);
            }
            let mut obj = String::from_str("{\"id\":\"");
            let esc = json_escape_exec(n.as_str());
            push_str(&mut obj, esc.as_str());
            push_str(&mut obj, "\",\"is_root\":");
            push_str(
                &mut obj,
                if vec_contains_string(&self.roots, n.as_str()) {
                    "true"
                } else {
                    "false"
                },
            );
            push_str(&mut obj, ",\"is_leaf\":");
            push_str(
                &mut obj,
                if vec_contains_string(&self.leaves, n.as_str()) {
                    "true"
                } else {
                    "false"
                },
            );
            push_str(&mut obj, ",\"is_bridge\":");
            push_str(
                &mut obj,
                if vec_contains_string(&self.bridges, n.as_str()) {
                    "true"
                } else {
                    "false"
                },
            );
            push_str(&mut obj, "}");
            proof {
                assert(obj@ =~= json_node_obj(*self, self.nodes.deep_view()[i as int]));
            }
            nobjs.push(obj);
            proof {
                assert(nobjs.deep_view() =~~= prev.push(
                    json_node_obj(*self, self.nodes.deep_view()[i as int]),
                ));
                assert(nobjs.deep_view() + json_node_objs(*self, i as int + 1) =~= prev
                    + json_node_objs(*self, i as int));
            }
            i = i + 1;
        }
        proof {
            assert(json_node_objs(*self, i as int) =~= Seq::<Seq<char>>::empty());
            assert(nobjs.deep_view() + Seq::<Seq<char>>::empty() =~= nobjs.deep_view());
        }
        // edge objects, grouped by source node in node order
        let mut eobjs: Vec<String> = Vec::new();
        let mut i2: usize = 0;
        proof {
            assert(eobjs.deep_view() =~= Seq::<Seq<char>>::empty());
        }
        while i2 < self.nodes.len()
            invariant
                i2 <= self.nodes@.len(),
                eobjs.deep_view() + json_edge_objs(*self, i2 as int) == json_edge_objs(*self, 0),
            decreases self.nodes@.len() - i2,
        {
            let n = &self.nodes[i2];
            proof {
                assert(n@ == self.nodes.deep_view()[i2 as int]);
            }
            let ghost base = eobjs.deep_view();
            let mut k: usize = 0;
            while k < self.edges.len()
                invariant
                    k <= self.edges@.len(),
                    i2 < self.nodes@.len(),
                    n@ == self.nodes.deep_view()[i2 as int],
                    eobjs.deep_view() + json_edge_objs_for(n@, self.edges.deep_view(), k as int)
                        == base + json_edge_objs_for(n@, self.edges.deep_view(), 0),
                decreases self.edges@.len() - k,
            {
                let ghost prev = eobjs.deep_view();
                let e = &self.edges[k];
                proof {
                    assert(self.edges.deep_view()[k as int] == self.edges@[k as int].deep_view());
                }
                if str_eq(e.0.as_str(), n.as_str()) {
                    let mut obj = String::from_str("{\"source\":\"");
                    let esca = json_escape_exec(n.as_str());
                    push_str(&mut obj, esca.as_str());
                    push_str(&mut obj, "\",\"target\":\"");
                    let escb = json_escape_exec(e.1.as_str());
                    push_str(&mut obj, escb.as_str());
                    push_str(&mut obj, "\"}");
                    proof {
                        assert(obj@ =~= json_edge_obj(n@, self.edges.deep_view()[k as int].1));
                    }
                    eobjs.push(obj);
                    proof {
                        assert(eobjs.deep_view() =~~= prev.push(
                            json_edge_obj(n@, self.edges.deep_view()[k as int].1),
                        ));
                    }
                }
                proof {
                    assert(eobjs.deep_view() + json_edge_objs_for(
                        n@,
                        self.edges.deep_view(),
                        k as int + 1,
                    ) =~= prev + json_edge_objs_for(n@, self.edges.deep_view(), k as int));
                }
                k = k + 1;
            }
            proof {
                assert(json_edge_objs_for(n@, self.edges.deep_view(), self.edges.deep_view().len() as int)
                    =~= Seq::<Seq<char>>::empty());
                assert(eobjs.deep_view() + Seq::<Seq<char>>::empty() =~= eobjs.deep_view());
                assert(json_edge_objs(*self, i2 as int) == json_edge_objs_for(
                    self.nodes.deep_view()[i2 as int],
                    self.edges.deep_view(),
                    0,
                ) + json_edge_objs(*self, i2 as int + 1));
                assert(eobjs.deep_view() + json_edge_objs(*self, i2 as int + 1) =~= base
                    + json_edge_objs(*self, i2 as int));
            }
            i2 = i2 + 1;
        }
        proof {
            assert(json_edge_objs(*self, i2 as int) =~= Seq::<Seq<char>>::empty());
            assert(eobjs.deep_view() + Seq::<Seq<char>>::empty() =~= eobjs.deep_view());
        }
        // cluster arrays
        let mut carrs: Vec<String> = Vec::new();
        let mut c: usize = 0;
        proof {
            assert(carrs.deep_view() =~= Seq::<Seq<char>>::empty());
        }
        while c < self.clusters.len()
            invariant
                c <= self.clusters@.len(),
                carrs.deep_view() + json_cluster_arrs(self.clusters.deep_view(), c as int)
                    == json_cluster_arrs(self.clusters.deep_view(), 0),
            decreases self.clusters@.len() - c,
        {
            let ghost prev = carrs.deep_view();
            let cluster = &self.clusters[c];
            let ghost clv = self.clusters.deep_view()[c as int];
            proof {
                assert(clv == self.clusters@[c as int].deep_view());
            }
            let mut quoted: Vec<String> = Vec::new();
            let mut q: usize = 0;
            proof {
                assert(quoted.deep_view() =~= Seq::<Seq<char>>::empty());
            }
            while q < cluster.len()
                invariant
                    q <= cluster@.len(),
                    clv == cluster.deep_view(),
                    clv.len() == cluster@.len(),
                    quoted.deep_view() + json_quoted_names(clv, q as int) == json_quoted_names(
                        clv,
                        0,
                    ),
                decreases cluster@.len() - q,
            {
                let ghost prevq = quoted.deep_view();
                let mut one = String::from_str("\"");
                let escn = json_escape_exec(cluster[q].as_str());
                push_str(&mut one, escn.as_str());
                push_str(&mut one, "\"");
                proof {
                    assert(cluster@[q as int]@ == clv[q as int]);
                    assert(one@ =~= "\""@ + json_escape(clv[q as int]) + "\""@);
                }
                quoted.push(one);
                proof {
                    assert(quoted.deep_view() =~~= prevq.push(
                        "\""@ + json_escape(clv[q as int]) + "\""@,
                    ));
                    assert(quoted.deep_view() + json_quoted_names(clv, q as int + 1) =~= prevq
                        + json_quoted_names(clv, q as int));
                }
                q = q + 1;
            }
            proof {
                assert(json_quoted_names(clv, clv.len() as int) =~= Seq::<Seq<char>>::empty());
                assert(quoted.deep_view() + Seq::<Seq<char>>::empty() =~= quoted.deep_view());
            }
            let mut arr = String::from_str("[");
            let joined = join_exec(&quoted, ",");
            push_str(&mut arr, joined.as_str());
            push_str(&mut arr, "]");
            proof {
                assert(arr@ =~= "["@ + join_with(json_quoted_names(clv, 0), ","@) + "]"@);
            }
            carrs.push(arr);
            proof {
                assert(carrs.deep_view() =~~= prev.push(
                    "["@ + join_with(json_quoted_names(clv, 0), ","@) + "]"@,
                ));
                assert(carrs.deep_view() + json_cluster_arrs(
                    self.clusters.deep_view(),
                    c as int + 1,
                ) =~= prev + json_cluster_arrs(self.clusters.deep_view(), c as int));
            }
            c = c + 1;
        }
        proof {
            assert(json_cluster_arrs(self.clusters.deep_view(), c as int)
                =~= Seq::<Seq<char>>::empty());
            assert(carrs.deep_view() + Seq::<Seq<char>>::empty() =~= carrs.deep_view());
        }
        // assemble the document
        let mut out = String::from_str("{\"nodes\":[");
        let jn = join_exec(&nobjs, ",");
        push_str(&mut out, jn.as_str());
        push_str(&mut out, "],\"edges\":[");
        let je = join_exec(&eobjs, ",");
        push_str(&mut out, je.as_str());
        push_str(&mut out, "],\"clusters\":[");
        let jc = join_exec(&carrs, ",");
        push_str(&mut out, jc.as_str());
        push_str(&mut out, "]}");
        out
    }

    /// Exports the graph as a left-to-right flowchart.
    pub fn to_mermaid(&self) -> (r: String)
        ensures
            r@ == spec_to_mermaid(*self),
    {
        let mut out = String::from_str("graph LR\n");
        let mut k: usize = 0;
        while k < self.edges.len()
            invariant
                k <= self.edges@.len(),
                out@ + mermaid_edge_lines(self.edges.deep_view(), k as int) == spec_to_mermaid(
                    *self,
                ),
            decreases self.edges@.len() - k,
        {
            let ghost prev = out@;
            let e = &self.edges[k];
            proof {
                assert(self.edges.deep_view()[k as int] == self.edges@[k as int].deep_view());
            }
            push_str(&mut out, "  ");
            let sa = sanitize_mermaid(e.0.as_str());
            push_str(&mut out, sa.as_str());
            push_str(&mut out, "[");
            push_str(&mut out, e.0.as_str());
            push_str(&mut out, "] --> ");
            let sb = sanitize_mermaid(e.1.as_str());
            push_str(&mut out, sb.as_str());
            push_str(&mut out, "[");
            push_str(&mut out, e.1.as_str());
            push_str(&mut out, "]\n");
            proof {
                let edv = self.edges.deep_view();
                assert(out@ =~= prev + ("  "@ + spec_sanitize(edv[k as int].0) + "["@
                    + edv[k as int].0 + "] --> "@ + spec_sanitize(edv[k as int].1) + "["@
                    + edv[k as int].1 + "]\n"@));
                assert(out@ + mermaid_edge_lines(edv, k as int + 1) =~= prev
                    + mermaid_edge_lines(edv, k as int));
            }
            k = k + 1;
        }
        proof {
            assert(mermaid_edge_lines(self.edges.deep_view(), k as int) =~= Seq::<char>::empty());
            assert(out@ + Seq::<char>::empty() =~= out@);
        }
        out
    }
}

} // verus!
