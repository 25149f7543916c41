//! The diagnostic checks and the report plumbing around them.

use loadout::checks::{
    check_dangling_references, check_missing_metadata, check_orphaned_skills,
    check_pipeline_integrity, check_placeholder_descriptions, run_checks,
};
use loadout::config::{CheckConfig, Config, Global, Sources};
use loadout::crossref::{CrossRef, DetectionMethod};
use loadout::finding::{exit_code, Finding, Severity};
use loadout::frontmatter::{Frontmatter, PipelineStage};
use loadout::skill::Skill;

fn s(x: &str) -> String {
    x.to_string()
}

fn bare_frontmatter(name: &str, description: &str) -> Frontmatter {
    Frontmatter {
        name: s(name),
        description: s(description),
        disable_model_invocation: None,
        user_invocable: None,
        allowed_tools: None,
        context: None,
        agent: None,
        model: None,
        argument_hint: None,
        license: None,
        compatibility: None,
        metadata: None,
        tags: None,
        pipeline: None,
    }
}

fn test_skill(name: &str, description: &str) -> Skill {
    Skill {
        name: s(name),
        path: format!("/test/skills/{}", name),
        skill_file: format!("/test/skills/{}/SKILL.md", name),
        frontmatter: bare_frontmatter(name, description),
    }
}

fn empty_config() -> Config {
    Config {
        sources: Sources { skills: vec![s("/test/skills")] },
        global: Global { targets: vec![], skills: vec![] },
        projects: vec![],
        check: CheckConfig::default(),
    }
}

#[test]
fn should_detect_dangling_references() {
    // Given
    let crossrefs = vec![
        (
            s("skill-a"),
            vec![CrossRef {
                target: s("nonexistent"),
                line: 10,
                method: DetectionMethod::XmlCrossref,
            }],
        ),
    ];
    let known: Vec<String> = vec![];

    // When
    let findings = check_dangling_references(&crossrefs, &known);

    // Then
    assert_eq!(findings.len(), 1);
    assert_eq!(findings[0].severity, Severity::Error);
    assert!(findings[0].message.contains("nonexistent"));
    assert!(findings[0].fix.contains("loadout new nonexistent"));
}

#[test]
fn should_detect_orphaned_skills() {
    // Given
    let config = Config {
        sources: Sources { skills: vec![s("/test/skills")] },
        global: Global { targets: vec![], skills: vec![s("skill-a")] },
        projects: vec![],
        check: Default::default(),
    };
    let skills = vec![test_skill("skill-a", "Active skill"), test_skill("skill-b", "Orphaned skill")];

    // When
    let findings = check_orphaned_skills(&config, &skills);

    // Then
    assert_eq!(findings.len(), 1);
    assert_eq!(findings[0].severity, Severity::Warning);
    assert!(findings[0].message.contains("skill-b"));
    assert!(findings[0].fix.contains("loadout.toml"));
}

#[test]
fn should_detect_placeholder_descriptions() {
    // Given
    let skills = vec![
        test_skill("skill-a", "TODO: write description"),
        test_skill("skill-b", "Short"),
        test_skill("skill-c", "This is a proper description"),
    ];

    // When
    let findings = check_placeholder_descriptions(&skills);

    // Then
    assert_eq!(findings.len(), 2);
    assert!(findings.iter().any(|f| f.message.contains("skill-a")));
    assert!(findings.iter().any(|f| f.message.contains("skill-b")));
}

#[test]
fn should_detect_pipeline_integrity_issues() {
    // Given: skill-a declares after: [skill-b] but skill-b declares no before
    let mut fm_a = bare_frontmatter("skill-a", "Test A");
    fm_a.pipeline = Some(vec![(
        s("test-pipeline"),
        PipelineStage { stage: s("second"), order: 2, after: Some(vec![s("skill-b")]), before: None },
    )]);
    let mut fm_b = bare_frontmatter("skill-b", "Test B");
    fm_b.pipeline = Some(vec![(
        s("test-pipeline"),
        PipelineStage { stage: s("first"), order: 1, after: None, before: None },
    )]);
    let skills = vec![
        Skill {
            name: s("skill-a"),
            path: s("/test/skills/skill-a"),
            skill_file: s("/test/skills/skill-a/SKILL.md"),
            frontmatter: fm_a,
        },
        Skill {
            name: s("skill-b"),
            path: s("/test/skills/skill-b"),
            skill_file: s("/test/skills/skill-b/SKILL.md"),
            frontmatter: fm_b,
        },
    ];
    let known: Vec<String> = skills.iter().map(|k| k.name.clone()).collect();

    // When
    let findings = check_pipeline_integrity(&skills, &known);

    // Then
    assert!(findings.iter().any(|f| {
        f.severity == Severity::Warning && f.message.contains("doesn't declare before")
    }));
}

#[test]
fn should_detect_missing_metadata_when_library_is_partially_annotated() {
    // Given: one tagged skill and one with no metadata
    let mut tagged = test_skill("tagged-skill", "Has tags");
    tagged.frontmatter.tags = Some(vec![s("example")]);
    let skills = vec![tagged, test_skill("lonely-skill", "No metadata at all")];

    // When
    let findings = check_missing_metadata(&skills);

    // Then
    assert_eq!(findings.len(), 1);
    assert_eq!(findings[0].severity, Severity::Info);
    assert!(findings[0].message.contains("lonely-skill"));
}

#[test]
fn should_skip_missing_metadata_check_when_no_skills_are_annotated() {
    // Given: all skills lack tags and pipeline
    let skills = vec![test_skill("skill-a", "No metadata"), test_skill("skill-b", "Also no metadata")];

    // When
    let findings = check_missing_metadata(&skills);

    // Then: nothing reported until metadata is adopted at all
    assert!(findings.is_empty());
}

#[test]
fn should_include_fix_suggestions_in_all_findings() {
    // Given
    let crossrefs = vec![
        (
            s("skill-a"),
            vec![CrossRef { target: s("missing"), line: 5, method: DetectionMethod::XmlCrossref }],
        ),
    ];
    let known: Vec<String> = vec![];

    // When
    let findings = check_dangling_references(&crossrefs, &known);

    // Then: every finding has a non-empty fix
    for finding in &findings {
        assert!(!finding.fix.is_empty(), "Finding should have a fix suggestion");
    }
}

#[test]
fn should_determine_exit_code_from_severity() {
    // Given
    let findings_with_errors =
        vec![Finding::error(s("Something failed"), s("Fix it"), s("test:error"))];
    let findings_warnings_only =
        vec![Finding::warning(s("Something suspicious"), s("Check it"), s("test:warning"))];
    let no_findings: Vec<Finding> = vec![];

    // When/Then
    assert_eq!(exit_code(&findings_with_errors), 1);
    assert_eq!(exit_code(&findings_warnings_only), 0);
    assert_eq!(exit_code(&no_findings), 0);
}

#[test]
fn should_report_one_dangling_error_with_exact_key_and_fix() {
    // Given: skill a references b, which does not exist
    let skills = vec![test_skill("a", "A fine description")];
    let crossrefs = vec![
        (s("a"), vec![CrossRef { target: s("b"), line: 3, method: DetectionMethod::XmlCrossref }]),
    ];
    let config = Config {
        sources: Sources { skills: vec![s("/test/skills")] },
        global: Global { targets: vec![], skills: vec![s("a")] },
        projects: vec![],
        check: CheckConfig::default(),
    };

    // When
    let findings = run_checks(&skills, &crossrefs, &config, &vec![], None, false);

    // Then: exactly one error, with the dangling key and a fix that says to
    // create the missing skill
    let errors: Vec<&Finding> =
        findings.iter().filter(|f| f.severity == Severity::Error).collect();
    assert_eq!(errors.len(), 1);
    assert_eq!(errors[0].suppress_key, "dangling:a:b");
    assert!(errors[0].fix.contains("loadout new b"));
    assert_eq!(exit_code(&findings), 1);
}

#[test]
fn should_report_one_pipeline_gap_with_exact_key() {
    // Given: a declares after [b] in pipeline p; b declares no before
    let mut fm_a = bare_frontmatter("a", "A fine description");
    fm_a.pipeline = Some(vec![(
        s("p"),
        PipelineStage { stage: s("late"), order: 2, after: Some(vec![s("b")]), before: None },
    )]);
    let mut fm_b = bare_frontmatter("b", "B fine description");
    fm_b.pipeline = Some(vec![(
        s("p"),
        PipelineStage { stage: s("early"), order: 1, after: None, before: None },
    )]);
    let skills = vec![
        Skill { name: s("a"), path: s("/t/a"), skill_file: s("/t/a/SKILL.md"), frontmatter: fm_a },
        Skill { name: s("b"), path: s("/t/b"), skill_file: s("/t/b/SKILL.md"), frontmatter: fm_b },
    ];
    let known = vec![s("a"), s("b")];

    // When
    let findings = check_pipeline_integrity(&skills, &known);

    // Then
    assert_eq!(findings.len(), 1);
    assert_eq!(findings[0].severity, Severity::Warning);
    assert_eq!(findings[0].suppress_key, "pipeline-gap:p:a:b");
}

#[test]
fn should_emit_placeholder_but_never_short_for_a_todo_description() {
    // Given: description exactly "TODO" is both a placeholder and short
    let skills = vec![test_skill("x", "TODO")];

    // When
    let findings = check_placeholder_descriptions(&skills);

    // Then: the placeholder wins; the short-description key never appears
    assert_eq!(findings.len(), 1);
    assert_eq!(findings[0].suppress_key, "placeholder:x");
    assert!(findings.iter().all(|f| f.suppress_key != "short-description:x"));
}

#[test]
fn should_drop_ignored_findings_quietly_and_mark_them_when_verbose() {
    // Given: the orphan finding for x is in the ignore list
    let skills = vec![test_skill("x", "A fine description")];
    let config = Config {
        sources: Sources { skills: vec![] },
        global: Global { targets: vec![], skills: vec![] },
        projects: vec![],
        check: CheckConfig { ignore: vec![s("orphaned:x")] },
    };

    // When
    let quiet = run_checks(&skills, &vec![], &config, &vec![], None, false);
    let verbose = run_checks(&skills, &vec![], &config, &vec![], None, true);

    // Then
    assert!(quiet.iter().all(|f| f.suppress_key != "orphaned:x"));
    let kept = verbose.iter().find(|f| f.suppress_key == "orphaned:x").unwrap();
    assert!(kept.message.ends_with("(suppressed)"));
}

#[test]
fn should_return_identical_reports_when_run_twice_on_unchanged_input() {
    // Given
    let skills = vec![test_skill("a", "TODO"), test_skill("b", "A fine description")];
    let crossrefs = vec![
        (s("a"), vec![CrossRef { target: s("c"), line: 1, method: DetectionMethod::XmlCrossref }]),
    ];
    let config = empty_config();

    // When
    let first = run_checks(&skills, &crossrefs, &config, &vec![], None, false);
    let second = run_checks(&skills, &crossrefs, &config, &vec![], None, false);

    // Then
    assert_eq!(first.len(), second.len());
    for k in 0..first.len() {
        assert_eq!(first[k].message, second[k].message);
        assert_eq!(first[k].suppress_key, second[k].suppress_key);
        assert_eq!(first[k].severity, second[k].severity);
    }
    assert_eq!(exit_code(&first), exit_code(&second));
}

#[test]
fn should_rank_errors_before_warnings_before_infos() {
    // Given: inputs producing an info, a warning and an error
    let mut tagged = test_skill("tagged", "A fine description");
    tagged.frontmatter.tags = Some(vec![s("t")]);
    let skills = vec![tagged, test_skill("plain", "Short")];
    let crossrefs = vec![
        (
            s("plain"),
            vec![CrossRef { target: s("ghost"), line: 1, method: DetectionMethod::XmlCrossref }],
        ),
    ];
    let config = Config {
        sources: Sources { skills: vec![] },
        global: Global { targets: vec![], skills: vec![s("tagged"), s("plain")] },
        projects: vec![],
        check: CheckConfig::default(),
    };

    // When
    let findings = run_checks(&skills, &crossrefs, &config, &vec![], None, false);

    // Then: severities never rise along the report
    let mut last = Severity::Error;
    for f in &findings {
        assert!(f.severity <= last);
        last = f.severity;
    }
    assert_eq!(findings[0].severity, Severity::Error);
}
