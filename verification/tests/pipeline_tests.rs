//! The pipeline overview.

use loadout::frontmatter::{Frontmatter, PipelineStage};
use loadout::pipelines::extract_pipelines;
use loadout::skill::Skill;

fn s(x: &str) -> String {
    x.to_string()
}

fn test_skill(name: &str, pipeline_name: &str, stage: &str, order: u32) -> Skill {
    Skill {
        name: s(name),
        path: format!("/test/{}", name),
        skill_file: format!("/test/{}/SKILL.md", name),
        frontmatter: Frontmatter {
            name: s(name),
            description: format!("Test skill {}", name),
            disable_model_invocation: None,
            user_invocable: None,
            allowed_tools: None,
            context: None,
            agent: None,
            model: None,
            argument_hint: None,
            license: None,
            compatibility: None,
            metadata: None,
            tags: None,
            pipeline: Some(vec![(
                s(pipeline_name),
                PipelineStage { stage: s(stage), order, after: None, before: None },
            )]),
        },
    }
}

#[test]
fn should_extract_pipeline_from_skills() {
    // Given
    let skills = vec![
        test_skill("skill-a", "test-pipeline", "first", 1),
        test_skill("skill-b", "test-pipeline", "second", 2),
    ];

    // When
    let pipelines = extract_pipelines(&skills);

    // Then
    assert_eq!(pipelines.len(), 1);
    assert_eq!(pipelines[0].name, "test-pipeline");
    assert_eq!(pipelines[0].skills.len(), 2);
    assert_eq!(pipelines[0].stages.len(), 2);
}

#[test]
fn should_group_skills_by_stage() {
    // Given
    let skills = vec![
        test_skill("skill-a", "test", "init", 1),
        test_skill("skill-b", "test", "init", 2),
        test_skill("skill-c", "test", "process", 1),
    ];

    // When
    let pipelines = extract_pipelines(&skills);

    // Then
    assert_eq!(pipelines[0].stages.len(), 2);
    let init_stage = pipelines[0].stages.iter().find(|g| g.name == "init").unwrap();
    assert_eq!(init_stage.skills.len(), 2);
}

#[test]
fn should_report_gaps_and_cross_pipeline_members() {
    // Given: a pipeline member points outside the pipeline, and one member
    // belongs to two pipelines
    let mut a = test_skill("a", "p", "early", 1);
    if let Some(pl) = &mut a.frontmatter.pipeline {
        pl[0].1.after = Some(vec![s("outsider")]);
        pl.push((s("q"), PipelineStage { stage: s("solo"), order: 1, after: None, before: None }));
    }
    let b = test_skill("b", "p", "late", 2);
    let skills = vec![a, b];

    // When
    let pipelines = extract_pipelines(&skills);

    // Then: pipeline p lists the missing dependency once, and marks a as a
    // member of more than one pipeline
    assert_eq!(pipelines.len(), 2);
    let p = pipelines.iter().find(|x| x.name == "p").unwrap();
    assert_eq!(p.gaps, vec![s("outsider")]);
    assert_eq!(p.cross_pipeline, vec![s("a")]);
    let q = pipelines.iter().find(|x| x.name == "q").unwrap();
    assert!(q.gaps.is_empty());
    assert_eq!(q.cross_pipeline, vec![s("a")]);
}

#[test]
fn should_sort_pipelines_by_name() {
    // Given: one skill declaring its pipelines out of name order
    let mut skill = test_skill("a", "q", "solo", 1);
    if let Some(pl) = &mut skill.frontmatter.pipeline {
        pl.push((s("b"), PipelineStage { stage: s("solo"), order: 1, after: None, before: None }));
    }

    // When
    let pipelines = extract_pipelines(&vec![skill]);

    // Then
    let names: Vec<String> = pipelines.iter().map(|p| p.name.clone()).collect();
    assert_eq!(names, vec![s("b"), s("q")]);
}

#[test]
fn should_sort_members_by_stage_label_then_order() {
    // Given: members declared out of order
    let skills = vec![
        test_skill("third", "p", "later", 1),
        test_skill("second", "p", "early", 2),
        test_skill("first", "p", "early", 1),
    ];

    // When
    let pipelines = extract_pipelines(&skills);

    // Then: stage label first, order key second; stage groups by label
    assert_eq!(pipelines[0].skills, vec![s("first"), s("second"), s("third")]);
    let labels: Vec<String> = pipelines[0].stages.iter().map(|g| g.name.clone()).collect();
    assert_eq!(labels, vec![s("early"), s("later")]);
    let early = &pipelines[0].stages[0];
    assert_eq!(early.skills, vec![s("first"), s("second")]);
}

