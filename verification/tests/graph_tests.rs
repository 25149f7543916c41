//! The dependency graph: construction, analysis, and the four exporters.

use loadout::crossref::{CrossRef, DetectionMethod};
use loadout::graph::{OutputFormat, SkillGraph};

fn s(x: &str) -> String {
    x.to_string()
}

fn test_crossref(target: &str) -> CrossRef {
    CrossRef { target: s(target), line: 1, method: DetectionMethod::XmlCrossref }
}

#[test]
fn should_build_graph_from_crossrefs() {
    // Given: skill-a -> skill-b -> skill-c
    let crossrefs = vec![
        (s("skill-a"), vec![test_crossref("skill-b")]),
        (s("skill-b"), vec![test_crossref("skill-c")]),
    ];

    // When
    let graph = SkillGraph::from_crossrefs(&crossrefs);

    // Then
    assert_eq!(graph.nodes.len(), 3);
}

#[test]
fn should_identify_root_skills() {
    // Given: skill-a -> skill-b (skill-a is root)
    let crossrefs = vec![(s("skill-a"), vec![test_crossref("skill-b")])];

    // When
    let graph = SkillGraph::from_crossrefs(&crossrefs);

    // Then
    assert_eq!(graph.roots.len(), 1);
    assert!(graph.roots.contains(&s("skill-a")));
}

#[test]
fn should_identify_leaf_skills() {
    // Given: skill-a -> skill-b (skill-b is leaf)
    let crossrefs = vec![(s("skill-a"), vec![test_crossref("skill-b")])];

    // When
    let graph = SkillGraph::from_crossrefs(&crossrefs);

    // Then
    assert_eq!(graph.leaves.len(), 1);
    assert!(graph.leaves.contains(&s("skill-b")));
}

#[test]
fn should_detect_clusters() {
    // Given: skill-a <-> skill-b (circular reference, forms a cluster)
    let crossrefs = vec![
        (s("skill-a"), vec![test_crossref("skill-b")]),
        (s("skill-b"), vec![test_crossref("skill-a")]),
    ];

    // When
    let graph = SkillGraph::from_crossrefs(&crossrefs);

    // Then
    assert_eq!(graph.clusters.len(), 1);
    assert_eq!(graph.clusters[0].len(), 2);
}

#[test]
fn should_generate_dot_output() {
    // Given
    let crossrefs = vec![(s("skill-a"), vec![test_crossref("skill-b")])];

    // When
    let graph = SkillGraph::from_crossrefs(&crossrefs);
    let dot = graph.to_dot();

    // Then
    assert!(dot.contains("digraph SkillGraph"));
    assert!(dot.contains("\"skill-a\" -> \"skill-b\""));
}

#[test]
fn should_generate_json_output() {
    // Given
    let crossrefs = vec![(s("skill-a"), vec![test_crossref("skill-b")])];

    // When
    let graph = SkillGraph::from_crossrefs(&crossrefs);
    let json = graph.to_json();

    // Then
    assert!(json.contains("\"nodes\""));
    assert!(json.contains("\"edges\""));
    assert!(json.contains("skill-a"));
}

#[test]
fn should_generate_mermaid_output() {
    // Given
    let crossrefs = vec![(s("skill-a"), vec![test_crossref("skill-b")])];

    // When
    let graph = SkillGraph::from_crossrefs(&crossrefs);
    let mermaid = graph.to_mermaid();

    // Then
    assert!(mermaid.contains("graph LR"));
    assert!(mermaid.contains("skill_a"));
    assert!(mermaid.contains("-->"));
}

#[test]
fn should_parse_output_format_case_insensitive() {
    // Given/When/Then
    assert!(matches!(OutputFormat::from_str("dot"), Some(OutputFormat::Dot)));
    assert!(matches!(OutputFormat::from_str("DOT"), Some(OutputFormat::Dot)));
    assert!(matches!(OutputFormat::from_str("text"), Some(OutputFormat::Text)));
    assert!(matches!(OutputFormat::from_str("json"), Some(OutputFormat::Json)));
    assert!(matches!(OutputFormat::from_str("mermaid"), Some(OutputFormat::Mermaid)));
    assert!(OutputFormat::from_str("invalid").is_none());
}

#[test]
fn should_include_phantom_targets_as_nodes() {
    // Given: a references a skill nobody declared
    let crossrefs = vec![(s("a"), vec![test_crossref("ghost")])];

    // When
    let graph = SkillGraph::from_crossrefs(&crossrefs);

    // Then: the node set is keys plus all referenced targets
    assert_eq!(graph.nodes.len(), 2);
    assert!(graph.nodes.contains(&s("a")));
    assert!(graph.nodes.contains(&s("ghost")));
}

#[test]
fn should_collapse_duplicate_edges() {
    // Given: a references b twice
    let crossrefs = vec![(s("a"), vec![test_crossref("b"), test_crossref("b")])];

    // When
    let graph = SkillGraph::from_crossrefs(&crossrefs);

    // Then
    assert_eq!(graph.edges.len(), 1);
}

#[test]
fn should_report_mutual_pair_with_no_roots_and_no_leaves() {
    // Given: a -> b and b -> a
    let crossrefs = vec![
        (s("a"), vec![test_crossref("b")]),
        (s("b"), vec![test_crossref("a")]),
    ];

    // When
    let graph = SkillGraph::from_crossrefs(&crossrefs);

    // Then: one cluster {a, b}, zero roots, zero leaves
    assert_eq!(graph.clusters.len(), 1);
    let mut members = graph.clusters[0].clone();
    members.sort();
    assert_eq!(members, vec![s("a"), s("b")]);
    assert_eq!(graph.roots.len(), 0);
    assert_eq!(graph.leaves.len(), 0);
}

#[test]
fn should_never_report_singleton_clusters() {
    // Given: a chain with no cycle at all
    let crossrefs = vec![
        (s("a"), vec![test_crossref("b")]),
        (s("b"), vec![test_crossref("c")]),
    ];

    // When
    let graph = SkillGraph::from_crossrefs(&crossrefs);

    // Then: no clusters, and in general none of size one
    assert!(graph.clusters.is_empty());
    assert!(graph.clusters.iter().all(|c| c.len() >= 2));
}

#[test]
fn should_flag_middle_nodes_with_the_bridge_heuristic() {
    // Given: a -> b -> c; only b has edges in and out
    let crossrefs = vec![
        (s("a"), vec![test_crossref("b")]),
        (s("b"), vec![test_crossref("c")]),
    ];

    // When
    let graph = SkillGraph::from_crossrefs(&crossrefs);

    // Then
    assert_eq!(graph.bridges, vec![s("b")]);
}

#[test]
fn should_render_exact_text_report() {
    // Given
    let crossrefs = vec![(s("b"), vec![test_crossref("a")])];

    // When
    let graph = SkillGraph::from_crossrefs(&crossrefs);
    let text = graph.to_text();

    // Then: counts, then the adjacency list sorted by name
    assert_eq!(
        text,
        "# Skill Dependency Graph\n\nSkills: 2\nClusters: 0\nRoots: 1\nLeaves: 1\nBridges: 0\n\n## Dependencies\n\na: (none)\nb: a\n"
    );
}

#[test]
fn should_render_exact_mermaid_edges() {
    // Given
    let crossrefs = vec![(s("skill-a"), vec![test_crossref("skill-b")])];

    // When
    let graph = SkillGraph::from_crossrefs(&crossrefs);

    // Then: identifiers replace hyphens, labels keep the original name
    assert_eq!(graph.to_mermaid(), "graph LR\n  skill_a[skill-a] --> skill_b[skill-b]\n");
}

#[test]
fn should_render_exact_json_document() {
    // Given
    let crossrefs = vec![(s("a"), vec![test_crossref("b")])];

    // When
    let graph = SkillGraph::from_crossrefs(&crossrefs);

    // Then
    assert_eq!(
        graph.to_json(),
        "{\"nodes\":[{\"id\":\"a\",\"is_root\":true,\"is_leaf\":false,\"is_bridge\":false},{\"id\":\"b\",\"is_root\":false,\"is_leaf\":true,\"is_bridge\":false}],\"edges\":[{\"source\":\"a\",\"target\":\"b\"}],\"clusters\":[]}"
    );
}

#[test]
fn should_report_each_component_exactly_once() {
    // Given: a three-member cycle and an outside node pointing in
    let crossrefs = vec![
        (s("a"), vec![test_crossref("b")]),
        (s("b"), vec![test_crossref("c")]),
        (s("c"), vec![test_crossref("a")]),
        (s("d"), vec![test_crossref("a")]),
    ];

    // When
    let graph = SkillGraph::from_crossrefs(&crossrefs);

    // Then: one cluster holding all three, each name exactly once
    assert_eq!(graph.clusters.len(), 1);
    let mut members = graph.clusters[0].clone();
    members.sort();
    assert_eq!(members, vec![s("a"), s("b"), s("c")]);
}

