//! Severity ordering, ranking, suppression, listings, and the remaining
//! small pieces of the report machinery.

use loadout::checks::{check_broken_symlinks, check_name_directory_mismatch,
    check_unmanaged_conflicts, target_directories};
use loadout::config::{CheckConfig, Config, Global, Project, Sources};
use loadout::finding::{
    apply_suppression, filter_min_severity, rank_findings, Finding, Severity,
};
use loadout::frontmatter::Frontmatter;
use loadout::installer::InstallerState;
use loadout::skill::{basename, build_skill_map, Skill};
use loadout::target::{is_managed, TargetEntry, TargetListing};

fn s(x: &str) -> String {
    x.to_string()
}

fn fm(name: &str, description: &str) -> Frontmatter {
    Frontmatter {
        name: s(name),
        description: s(description),
        disable_model_invocation: None,
        user_invocable: None,
        allowed_tools: None,
        context: None,
        agent: None,
        model: None,
        argument_hint: None,
        license: None,
        compatibility: None,
        metadata: None,
        tags: None,
        pipeline: None,
    }
}

fn entry(name: &str, is_symlink: bool, is_dir: bool, readable: bool, has_marker: bool) -> TargetEntry {
    TargetEntry { name: s(name), is_symlink, is_dir, readable, has_marker }
}

#[test]
fn should_initialize_with_no_operation() {
    // Given / When
    let state = InstallerState::new();

    // Then
    assert_eq!(state.last_operation, None);
    assert!(!state.operation_in_progress);
}

#[test]
fn should_prevent_concurrent_operations() {
    // Given
    let mut state = InstallerState::new();
    assert!(state.begin_operation());

    // When: a second operation tries to start
    let second = state.begin_operation();

    // Then
    assert!(!second);

    // And when the first finishes, its outcome is recorded
    state.finish_operation(s("Installed 2 skills"), true);
    assert!(!state.operation_in_progress);
    assert_eq!(state.last_operation, Some(s("\u{2713} Installed 2 skills")));
}

#[test]
fn should_order_severities_with_error_on_top() {
    assert!(Severity::Error > Severity::Warning);
    assert!(Severity::Warning > Severity::Info);
    assert_eq!(Severity::Error.label(), "ERROR");
    assert_eq!(Severity::Warning.label(), "WARN");
    assert_eq!(Severity::Info.label(), "INFO");
}

#[test]
fn should_rank_stably_within_one_severity() {
    // Given: two warnings in discovery order around an error
    let findings = vec![
        Finding::warning(s("first warning"), s("f"), s("w:1")),
        Finding::error(s("the error"), s("f"), s("e:1")),
        Finding::warning(s("second warning"), s("f"), s("w:2")),
    ];

    // When
    let ranked = rank_findings(&findings);

    // Then: the error first, the warnings in their original order
    assert_eq!(ranked[0].suppress_key, "e:1");
    assert_eq!(ranked[1].suppress_key, "w:1");
    assert_eq!(ranked[2].suppress_key, "w:2");
}

#[test]
fn should_filter_below_a_minimum_severity() {
    // Given
    let findings = vec![
        Finding::info(s("i"), s("f"), s("i:1")),
        Finding::warning(s("w"), s("f"), s("w:1")),
        Finding::error(s("e"), s("f"), s("e:1")),
    ];

    // When
    let kept = filter_min_severity(&findings, Severity::Warning);

    // Then
    assert_eq!(kept.len(), 2);
    assert!(kept.iter().all(|f| f.severity >= Severity::Warning));
}

#[test]
fn should_apply_suppression_in_both_modes() {
    // Given
    let findings = vec![
        Finding::warning(s("kept"), s("f"), s("a:1")),
        Finding::warning(s("dropped"), s("f"), s("a:2")),
    ];
    let ignore = vec![s("a:2")];

    // When
    let quiet = apply_suppression(&findings, &ignore, false);
    let verbose = apply_suppression(&findings, &ignore, true);

    // Then
    assert_eq!(quiet.len(), 1);
    assert_eq!(quiet[0].suppress_key, "a:1");
    assert_eq!(verbose.len(), 2);
    assert_eq!(verbose[1].message, "dropped (suppressed)");
    assert_eq!(verbose[0].message, "kept");
}

#[test]
fn should_detect_broken_symlinks_in_existing_targets() {
    // Given: one dead link, one live link, in an existing directory
    let listings = vec![TargetListing {
        dir: s("/targets/global"),
        exists: true,
        entries: vec![
            entry("dead-skill", true, false, false, false),
            entry("live-skill", true, false, true, false),
        ],
    }];

    // When
    let findings = check_broken_symlinks(&listings);

    // Then
    assert_eq!(findings.len(), 1);
    assert_eq!(findings[0].suppress_key, "broken-symlink:dead-skill");
    assert_eq!(findings[0].path, Some(s("/targets/global/dead-skill")));
}

#[test]
fn should_flag_unmanaged_directories_without_marker() {
    // Given: a plain directory without the marker, one with it
    let listings = vec![TargetListing {
        dir: s("/targets/global"),
        exists: true,
        entries: vec![
            entry("intruder", false, true, true, false),
            entry("managed-one", false, true, true, true),
        ],
    }];

    // When
    let findings = check_unmanaged_conflicts(&listings);

    // Then
    assert_eq!(findings.len(), 1);
    assert_eq!(findings[0].suppress_key, "unmanaged:intruder");
}

#[test]
fn should_skip_missing_target_directories() {
    // Given: the directory does not exist
    let listings = vec![TargetListing {
        dir: s("/absent"),
        exists: false,
        entries: vec![entry("dead", true, false, false, false)],
    }];

    // When/Then
    assert!(check_broken_symlinks(&listings).is_empty());
    assert!(check_unmanaged_conflicts(&listings).is_empty());
}

#[test]
fn should_detect_managed_directory() {
    // Given
    let unmanaged = vec![entry("some-skill", true, false, true, false)];
    let managed = vec![
        entry("some-skill", true, false, true, false),
        entry(".managed-by-loadout", false, false, true, false),
    ];

    // When/Then
    assert!(!is_managed(&unmanaged));
    assert!(is_managed(&managed));
}

#[test]
fn should_derive_project_target_directories() {
    // Given
    let config = Config {
        sources: Sources { skills: vec![] },
        global: Global { targets: vec![s("/home/u/.assistant/skills")], skills: vec![] },
        projects: vec![(s("/home/u/proj"), Project { skills: vec![], inherit: true })],
        check: CheckConfig::default(),
    };

    // When
    let dirs = target_directories(&config);

    // Then: the global targets, then the three per-project directories
    assert_eq!(
        dirs,
        vec![
            s("/home/u/.assistant/skills"),
            s("/home/u/proj/.assistant/skills"),
            s("/home/u/proj/.opencode/skills"),
            s("/home/u/proj/.agents/skills"),
        ]
    );
}

#[test]
fn should_take_basename_after_the_last_slash() {
    assert_eq!(basename("/a/b/my-skill"), "my-skill");
    assert_eq!(basename("my-skill"), "my-skill");
    assert_eq!(basename("/a/b/"), "");
}

#[test]
fn should_build_skill_map_pairing_names() {
    // Given
    let skills = vec![
        Skill {
            name: s("one"),
            path: s("/k/one"),
            skill_file: s("/k/one/SKILL.md"),
            frontmatter: fm("one", "first"),
        },
        Skill {
            name: s("two"),
            path: s("/k/two"),
            skill_file: s("/k/two/SKILL.md"),
            frontmatter: fm("two", "second"),
        },
    ];

    // When
    let map = build_skill_map(skills);

    // Then
    assert_eq!(map.len(), 2);
    assert_eq!(map[0].0, "one");
    assert_eq!(map[0].1.path, "/k/one");
    assert_eq!(map[1].0, "two");
}

#[test]
fn should_report_mismatched_directory_names() {
    // Given
    let skills = vec![Skill {
        name: s("declared"),
        path: s("/k/actual"),
        skill_file: s("/k/actual/SKILL.md"),
        frontmatter: fm("declared", "A fine description"),
    }];

    // When
    let findings = check_name_directory_mismatch(&skills);

    // Then
    assert_eq!(findings.len(), 1);
    assert_eq!(findings[0].suppress_key, "name-mismatch:declared");
    assert!(findings[0].message.contains("actual"));
}
