//! The reference extractor, exercised through `extract_references` and
//! `build_reference_map`.

use loadout::crossref::{
    build_reference_map, extract_references, incoming_sources, missing_targets,
    outgoing_targets, CrossRef, DetectionMethod,
};

fn s(x: &str) -> String {
    x.to_string()
}

#[test]
fn should_extract_xml_crossrefs() {
    // Given
    let content = "\n  <crossrefs>\n    <see ref=\"dev-workflow\">Commit format</see>\n    <see ref=\"bdd\">Acceptance criteria</see>\n  </crossrefs>\n";

    // When
    let refs = extract_references(content, "owner");

    // Then
    assert_eq!(refs.len(), 2);
    assert_eq!(refs[0].target, "dev-workflow");
    assert_eq!(refs[0].method, DetectionMethod::XmlCrossref);
    assert_eq!(refs[1].target, "bdd");
}

#[test]
fn should_extract_backtick_context_before() {
    // Given
    let content = "invoke `skill-review` on the result";

    // When
    let refs = extract_references(content, "owner");

    // Then
    assert_eq!(refs.len(), 1);
    assert_eq!(refs[0].target, "skill-review");
    assert_eq!(refs[0].method, DetectionMethod::BacktickContext);
}

#[test]
fn should_extract_backtick_context_after() {
    // Given
    let content = "Use the `voice` skill for tone calibration";

    // When
    let refs = extract_references(content, "owner");

    // Then
    assert_eq!(refs.len(), 1);
    assert_eq!(refs[0].target, "voice");
    assert_eq!(refs[0].method, DetectionMethod::BacktickContext);
}

#[test]
fn should_extract_from_related_table() {
    // Given
    let content = "\n## Related skills\n\n| Skill | Purpose |\n|-------|---------|\n| `skill-craft` | Creating skills |\n| `skill-review` | Reviewing quality |\n";

    // When
    let refs = extract_references(content, "owner");

    // Then
    assert_eq!(refs.len(), 2);
    assert!(refs.iter().any(|r| r.target == "skill-craft"));
    assert!(refs.iter().any(|r| r.target == "skill-review"));
    assert!(refs.iter().all(|r| r.method == DetectionMethod::RelatedTable));
}

#[test]
fn should_extract_natural_language_invoke_the() {
    // Given
    let content = "You should invoke the skill-review skill to verify quality";

    // When
    let refs = extract_references(content, "owner");

    // Then
    assert_eq!(refs.len(), 1);
    assert_eq!(refs[0].target, "skill-review");
    assert_eq!(refs[0].method, DetectionMethod::NaturalLanguage);
}

#[test]
fn should_extract_natural_language_load_first() {
    // Given
    let content = "Load voice first before editing articles";

    // When
    let refs = extract_references(content, "owner");

    // Then
    assert_eq!(refs.len(), 1);
    assert_eq!(refs[0].target, "voice");
}

#[test]
fn should_filter_self_references() {
    // Given
    let content = "\n  <crossrefs>\n    <see ref=\"skill-craft\">This skill</see>\n    <see ref=\"other-skill\">Another skill</see>\n  </crossrefs>\n";

    // When
    let refs = extract_references(content, "skill-craft");

    // Then
    assert_eq!(refs.len(), 1);
    assert_eq!(refs[0].target, "other-skill");
}

#[test]
fn should_build_reference_map() {
    // Given
    let skills = vec![
        (
            s("skill-a"),
            vec![
                CrossRef { target: s("skill-b"), line: 1, method: DetectionMethod::XmlCrossref },
                CrossRef { target: s("skill-c"), line: 2, method: DetectionMethod::XmlCrossref },
            ],
        ),
        (s("skill-b"), vec![]),
    ];

    // When
    let map = build_reference_map(&skills);

    // Then
    assert_eq!(map.len(), 2);
    let a = map.iter().find(|p| p.0 == "skill-a").unwrap();
    assert_eq!(a.1.len(), 2);
    assert!(a.1.iter().any(|t| t == "skill-b"));
    assert!(a.1.iter().any(|t| t == "skill-c"));
    let b = map.iter().find(|p| p.0 == "skill-b").unwrap();
    assert_eq!(b.1.len(), 0);
}

#[test]
fn should_record_line_numbers() {
    // Given
    let content = "Line 1\nLine 2 with invoke `my-skill` here\nLine 3";

    // When
    let refs = extract_references(content, "owner");

    // Then
    assert_eq!(refs.len(), 1);
    assert_eq!(refs[0].line, 2);
}

#[test]
fn should_not_report_a_skills_reference_to_itself_anywhere() {
    // Given: every heuristic can find the owner's own name
    let content = "<see ref=\"me\"> and invoke `me` now\nuse the me skill";

    // When
    let refs = extract_references(content, "me");

    // Then
    assert!(refs.iter().all(|r| r.target != "me"));
}

#[test]
fn should_concatenate_heuristics_in_fixed_order() {
    // Given: one hit for each heuristic family
    let content = "<see ref=\"alpha\">\ninvoke `beta` now\n## Integration\n| `gamma` |\nload delta first";

    // When
    let refs = extract_references(content, "owner");

    // Then: markup, backtick, table, then natural language
    let methods: Vec<DetectionMethod> = refs.iter().map(|r| r.method).collect();
    assert_eq!(
        methods,
        vec![
            DetectionMethod::XmlCrossref,
            DetectionMethod::BacktickContext,
            DetectionMethod::RelatedTable,
            DetectionMethod::NaturalLanguage,
        ]
    );
    assert_eq!(refs[0].target, "alpha");
    assert_eq!(refs[1].target, "beta");
    assert_eq!(refs[2].target, "gamma");
    assert_eq!(refs[3].target, "delta");
}

#[test]
fn should_query_outgoing_incoming_and_missing() {
    // Given: a -> b (known) and a -> ghost (unknown); b -> a
    let mk = |t: &str, line: usize| CrossRef {
        target: t.to_string(),
        line,
        method: DetectionMethod::XmlCrossref,
    };
    let crossrefs = vec![
        (s("a"), vec![mk("b", 1), mk("ghost", 2), mk("ghost", 3)]),
        (s("b"), vec![mk("a", 1)]),
    ];
    let known = vec![s("a"), s("b")];

    // When/Then: outgoing keeps known targets in order
    assert_eq!(outgoing_targets(&crossrefs, "a", &known), vec![s("b")]);
    // incoming lists referencing sources in order
    assert_eq!(incoming_sources(&crossrefs, "a"), vec![s("b")]);
    assert_eq!(incoming_sources(&crossrefs, "b"), vec![s("a")]);
    // missing lists unknown targets once, sorted
    assert_eq!(missing_targets(&crossrefs, &known), vec![s("ghost")]);
    assert_eq!(outgoing_targets(&crossrefs, "absent", &known).len(), 0);
}

