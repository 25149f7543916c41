//! Metadata validation and the delimiter extraction of the metadata text.

use loadout::frontmatter::{extract_yaml, Frontmatter, FrontmatterError};
use loadout::skill::{validate_skill, validate_skill_name, Skill};

fn s(x: &str) -> String {
    x.to_string()
}

fn fm(name: &str, description: &str) -> Frontmatter {
    Frontmatter {
        name: s(name),
        description: s(description),
        disable_model_invocation: None,
        user_invocable: None,
        allowed_tools: None,
        context: None,
        agent: None,
        model: None,
        argument_hint: None,
        license: None,
        compatibility: None,
        metadata: None,
        tags: None,
        pipeline: None,
    }
}

#[test]
fn should_extract_yaml_between_delimiters() {
    // Given
    let content = "---\nname: test\ndescription: value\n---\nContent after frontmatter";

    // When
    let yaml = extract_yaml(content).unwrap();

    // Then
    assert!(yaml.contains("name: test"));
    assert!(yaml.contains("description: value"));
    assert!(!yaml.contains("Content after"));
}

#[test]
fn should_return_error_when_missing_delimiters() {
    // Given
    let content = "name: my-skill\ndescription: No delimiters";

    // When
    let result = extract_yaml(content);

    // Then
    assert!(matches!(result, Err(FrontmatterError::MissingDelimiters)));
}

#[test]
fn should_extract_yaml_ignoring_indented_delimiters() {
    // Given: delimiter lines may carry surrounding whitespace
    let content = "  ---  \nname: x\n\t---\nbody";

    // When
    let yaml = extract_yaml(content).unwrap();

    // Then
    assert_eq!(yaml, "name: x");
}

#[test]
fn should_validate_name_pattern() {
    // Given
    let valid_names = vec!["skill", "my-skill", "test-skill-123", "a", "skill-1-2-3"];
    let invalid_names = vec![
        "My-Skill", "my_skill", "my--skill", "-my-skill", "my-skill-", "my skill", "my.skill", "",
    ];

    // When/Then
    for name in valid_names {
        assert!(fm(name, "test").validate().is_ok(), "Expected {} to be valid", name);
    }
    for name in invalid_names {
        assert!(fm(name, "test").validate().is_err(), "Expected {} to be invalid", name);
    }
}

#[test]
fn should_validate_name_length() {
    // Given: a name of 65 characters is over the limit
    let long_name = "a".repeat(65);

    // When
    let result = fm(&long_name, "test").validate();

    // Then
    assert!(matches!(result, Err(FrontmatterError::InvalidNameLength(65))));
}

#[test]
fn should_validate_description_length() {
    // Given: a description of 1025 characters is over the limit
    let long_desc = "a".repeat(1025);

    // When
    let result = fm("test", &long_desc).validate();

    // Then
    assert!(matches!(result, Err(FrontmatterError::InvalidDescriptionLength(1025))));
}

#[test]
fn should_reject_blank_descriptions() {
    // Given: whitespace only trims away to nothing
    let result = fm("test", "   \t ").validate();

    // Then
    assert!(matches!(result, Err(FrontmatterError::InvalidDescriptionLength(0))));
}

#[test]
fn should_trim_any_whitespace_around_descriptions_and_delimiters() {
    // Given: padding drawn from beyond ASCII
    let result = fm("test", "\u{a0}\u{2003}ok\u{3000}").validate();

    // Then: two bytes survive the trim
    assert!(result.is_ok());
    assert!(matches!(
        fm("test", "\u{a0}\u{2003}\u{3000}").validate(),
        Err(FrontmatterError::InvalidDescriptionLength(0))
    ));

    // And a delimiter line padded the same way still counts
    let yaml = extract_yaml("\u{a0}---\u{2003}\nname: x\n---\nbody").unwrap();
    assert_eq!(yaml, "name: x");
}

#[test]
fn should_detect_directory_name_mismatch() {
    // Given
    let frontmatter = fm("my-skill", "test");

    // When
    let result = frontmatter.validate_directory_name("wrong-name");

    // Then
    match result {
        Err(FrontmatterError::NameMismatch { expected, found }) => {
            assert_eq!(expected, "wrong-name");
            assert_eq!(found, "my-skill");
        }
        _ => panic!("expected a name mismatch"),
    }
}

#[test]
fn should_validate_matching_directory_name() {
    // Given
    let frontmatter = fm("my-skill", "test");

    // When
    let result = frontmatter.validate_directory_name("my-skill");

    // Then
    assert!(result.is_ok());
}

#[test]
fn should_validate_skill_name_pattern() {
    // Given - valid names
    assert!(validate_skill_name("my-skill").is_ok());
    assert!(validate_skill_name("skill").is_ok());
    assert!(validate_skill_name("skill-123").is_ok());

    // Given - invalid names
    assert!(validate_skill_name("My-Skill").is_err());
    assert!(validate_skill_name("my_skill").is_err());
    assert!(validate_skill_name("my--skill").is_err());
    assert!(validate_skill_name("-my-skill").is_err());
    assert!(validate_skill_name("my-skill-").is_err());
}

#[test]
fn should_validate_skill_name_length() {
    // Given - name too long
    let long_name = "a".repeat(65);

    // When
    let result = validate_skill_name(&long_name);

    // Then
    assert!(matches!(result, Err(FrontmatterError::InvalidNameLength(65))));
}

#[test]
fn should_validate_a_well_formed_skill() {
    // Given: the declared name matches the directory basename
    let skill = Skill {
        name: s("good-skill"),
        path: s("/src/skills/good-skill"),
        skill_file: s("/src/skills/good-skill/SKILL.md"),
        frontmatter: fm("good-skill", "A fine description"),
    };

    // When/Then
    assert!(validate_skill(&skill).is_ok());
}

#[test]
fn should_reject_a_skill_in_a_misnamed_directory() {
    // Given
    let skill = Skill {
        name: s("good-skill"),
        path: s("/src/skills/oddly-named"),
        skill_file: s("/src/skills/oddly-named/SKILL.md"),
        frontmatter: fm("good-skill", "A fine description"),
    };

    // When
    let result = validate_skill(&skill);

    // Then
    match result {
        Err(FrontmatterError::NameMismatch { expected, found }) => {
            assert_eq!(expected, "oddly-named");
            assert_eq!(found, "good-skill");
        }
        _ => panic!("expected a name mismatch"),
    }
}
