//! The diagnostic engine: nine independent checks over skills, references,
//! configuration and target-directory listings, whose findings are ranked
//! by severity, optionally filtered to a minimum severity, and then run
//! through the configured suppression list.

use vstd::prelude::*;

use crate::config::{Config, ConfigV};
use crate::crossref::{CrossRef, CrossRefV};
use crate::finding::{
    finding_v, min_sev_pred, spec_rank_findings, spec_suppress, apply_suppression,
    filter_min_severity, rank_findings, Finding, FindingV, Severity,
};
use crate::frontmatter::{PipelineStage, PipelineStageV};
use crate::skill::{basename, spec_basename, Skill, SkillV};
use crate::target::{TargetListing, TargetListingV};
use crate::text::{
    chars_vec, chars_to_string, dec_u64, lit_contains, lit_contains_exec, push_str, spec_dec,
    str_eq, vec_contains_string, clone_names,
};
use vstd::string::StringExecFns;
use vstd::string::StrSliceExecFns;

verus! {

// ---------------------------------------------------------------------------
// The findings each check emits
// ---------------------------------------------------------------------------

pub open spec fn dangling_finding(source: Seq<char>, target: Seq<char>, line: int) -> FindingV {
    finding_v(
        Severity::Error,
        "Skill '"@ + source + "' references non-existent skill '"@ + target + "' (line "@
            + spec_dec(line as nat) + ")"@,
        "Create the skill with `loadout new "@ + target
            + "`, or remove the reference at line "@ + spec_dec(line as nat),
        None,
        "dangling:"@ + source + ":"@ + target,
    )
}

pub open spec fn orphaned_finding(name: Seq<char>, path: Seq<char>) -> FindingV {
    finding_v(
        Severity::Warning,
        "Skill '"@ + name + "' exists in sources but not in any config section"@,
        "Add '"@ + name + "' to [global].skills in loadout.toml"@,
        Some(path),
        "orphaned:"@ + name,
    )
}

pub open spec fn mismatch_finding(name: Seq<char>, dir: Seq<char>, path: Seq<char>) -> FindingV {
    finding_v(
        Severity::Error,
        "Skill name '"@ + name + "' does not match directory name '"@ + dir + "'"@,
        "Rename directory to '"@ + name + "' or update frontmatter name field"@,
        Some(path),
        "name-mismatch:"@ + name,
    )
}

pub open spec fn empty_desc_finding(name: Seq<char>, path: Seq<char>) -> FindingV {
    finding_v(
        Severity::Error,
        "Skill '"@ + name + "' has empty description"@,
        "Add a description to the SKILL.md frontmatter"@,
        Some(path),
        "empty-description:"@ + name,
    )
}

pub open spec fn broken_symlink_finding(dir: Seq<char>, entry: Seq<char>) -> FindingV {
    finding_v(
        Severity::Error,
        "Broken symlink: target does not exist"@,
        "Run `loadout clean && loadout install` to rebuild symlinks"@,
        Some(dir + "/"@ + entry),
        "broken-symlink:"@ + entry,
    )
}

pub open spec fn unmanaged_finding(dir: Seq<char>, entry: Seq<char>) -> FindingV {
    finding_v(
        Severity::Warning,
        "Unmanaged directory conflicts with skill slot"@,
        "Remove the directory, or let loadout manage it with `loadout install`"@,
        Some(dir + "/"@ + entry),
        "unmanaged:"@ + entry,
    )
}

/// The first fifty characters of a description, as quoted in messages.
pub open spec fn desc_preview(desc: Seq<char>) -> Seq<char> {
    if desc.len() <= 50 {
        desc
    } else {
        desc.subrange(0, 50)
    }
}

pub open spec fn placeholder_finding(name: Seq<char>, desc: Seq<char>, path: Seq<char>)
    -> FindingV {
    finding_v(
        Severity::Warning,
        "Skill '"@ + name + "' has placeholder description: '"@ + desc_preview(desc) + "'"@,
        "Edit "@ + path + "/SKILL.md and write a real description"@,
        Some(path),
        "placeholder:"@ + name,
    )
}

pub open spec fn short_desc_finding(
    name: Seq<char>,
    desc: Seq<char>,
    byte_len: int,
    path: Seq<char>,
) -> FindingV {
    finding_v(
        Severity::Warning,
        "Skill '"@ + name + "' has very short description ("@ + spec_dec(byte_len as nat)
            + " chars): '"@ + desc + "'"@,
        "Edit "@ + path + "/SKILL.md and expand the description"@,
        Some(path),
        "short-description:"@ + name,
    )
}

pub open spec fn pipeline_missing_finding(
    pipeline: Seq<char>,
    skill: Seq<char>,
    dep: Seq<char>,
    is_after: bool,
) -> FindingV {
    finding_v(
        Severity::Error,
        "Pipeline '"@ + pipeline + "': skill '"@ + skill + "' declares "@ + (if is_after {
            "after"@
        } else {
            "before"@
        }) + ": ['"@ + dep + "'] but skill doesn't exist"@,
        "Create the skill with `loadout new "@ + dep + "`, or remove it from the "@ + (
        if is_after {
            "after"@
        } else {
            "before"@
        }) + " list"@,
        None,
        "pipeline-missing:"@ + pipeline + ":"@ + skill + ":"@ + dep,
    )
}

pub open spec fn pipeline_gap_finding(pipeline: Seq<char>, skill: Seq<char>, dep: Seq<char>)
    -> FindingV {
    finding_v(
        Severity::Warning,
        "Pipeline '"@ + pipeline + "': '"@ + skill + "' declares after: ['"@ + dep + "'] but '"@
            + dep + "' doesn't declare before: ['"@ + skill + "']"@,
        "Add before: ['"@ + skill + "'] to skill '"@ + dep + "' in pipeline '"@ + pipeline
            + "'"@,
        None,
        "pipeline-gap:"@ + pipeline + ":"@ + skill + ":"@ + dep,
    )
}

pub open spec fn no_metadata_finding(name: Seq<char>, path: Seq<char>) -> FindingV {
    finding_v(
        Severity::Info,
        "Skill '"@ + name + "' has no tags and isn't in any pipeline"@,
        "Add tags: [<tag>] or pipeline metadata to "@ + path + "/SKILL.md"@,
        None,
        "no-metadata:"@ + name,
    )
}

// ---------------------------------------------------------------------------
// Exec builders for those findings
// ---------------------------------------------------------------------------

fn mk_dangling(source: &String, target: &String, line: usize) -> (r: Finding)
    ensures
        r@ == dangling_finding(source@, target@, line as int),
{
    let ln = dec_u64(line as u64);
    let mut m = String::from_str("Skill '");
    push_str(&mut m, source.as_str());
    push_str(&mut m, "' references non-existent skill '");
    push_str(&mut m, target.as_str());
    push_str(&mut m, "' (line ");
    push_str(&mut m, ln.as_str());
    push_str(&mut m, ")");
    let mut f = String::from_str("Create the skill with `loadout new ");
    push_str(&mut f, target.as_str());
    push_str(&mut f, "`, or remove the reference at line ");
    push_str(&mut f, ln.as_str());
    let mut k = String::from_str("dangling:");
    push_str(&mut k, source.as_str());
    push_str(&mut k, ":");
    push_str(&mut k, target.as_str());
    Finding::error(m, f, k)
}

fn mk_orphaned(name: &String, path: &String) -> (r: Finding)
    ensures
        r@ == orphaned_finding(name@, path@),
{
    let mut m = String::from_str("Skill '");
    push_str(&mut m, name.as_str());
    push_str(&mut m, "' exists in sources but not in any config section");
    let mut f = String::from_str("Add '");
    push_str(&mut f, name.as_str());
    push_str(&mut f, "' to [global].skills in loadout.toml");
    let mut k = String::from_str("orphaned:");
    push_str(&mut k, name.as_str());
    Finding::warning_with_path(m, f, k, path.clone())
}

fn mk_mismatch(name: &String, dir: &String, path: &String) -> (r: Finding)
    ensures
        r@ == mismatch_finding(name@, dir@, path@),
{
    let mut m = String::from_str("Skill name '");
    push_str(&mut m, name.as_str());
    push_str(&mut m, "' does not match directory name '");
    push_str(&mut m, dir.as_str());
    push_str(&mut m, "'");
    let mut f = String::from_str("Rename directory to '");
    push_str(&mut f, name.as_str());
    push_str(&mut f, "' or update frontmatter name field");
    let mut k = String::from_str("name-mismatch:");
    push_str(&mut k, name.as_str());
    Finding::error_with_path(m, f, k, path.clone())
}

fn mk_empty_desc(name: &String, path: &String) -> (r: Finding)
    ensures
        r@ == empty_desc_finding(name@, path@),
{
    let mut m = String::from_str("Skill '");
    push_str(&mut m, name.as_str());
    push_str(&mut m, "' has empty description");
    let f = String::from_str("Add a description to the SKILL.md frontmatter");
    let mut k = String::from_str("empty-description:");
    push_str(&mut k, name.as_str());
    Finding::error_with_path(m, f, k, path.clone())
}

fn mk_broken_symlink(dir: &String, entry: &String) -> (r: Finding)
    ensures
        r@ == broken_symlink_finding(dir@, entry@),
{
    let m = String::from_str("Broken symlink: target does not exist");
    let f = String::from_str("Run `loadout clean && loadout install` to rebuild symlinks");
    let mut k = String::from_str("broken-symlink:");
    push_str(&mut k, entry.as_str());
    let mut p = dir.clone();
    push_str(&mut p, "/");
    push_str(&mut p, entry.as_str());
    Finding::error_with_path(m, f, k, p)
}

fn mk_unmanaged(dir: &String, entry: &String) -> (r: Finding)
    ensures
        r@ == unmanaged_finding(dir@, entry@),
{
    let m = String::from_str("Unmanaged directory conflicts with skill slot");
    let f = String::from_str("Remove the directory, or let loadout manage it with `loadout install`");
    let mut k = String::from_str("unmanaged:");
    push_str(&mut k, entry.as_str());
    let mut p = dir.clone();
    push_str(&mut p, "/");
    push_str(&mut p, entry.as_str());
    Finding::warning_with_path(m, f, k, p)
}

fn mk_placeholder(name: &String, desc: &String, path: &String) -> (r: Finding)
    ensures
        r@ == placeholder_finding(name@, desc@, path@),
{
    let dv = chars_vec(desc.as_str());
    let cut: usize = if dv.len() <= 50 {
        dv.len()
    } else {
        50
    };
    let preview = chars_to_string(&dv, 0, cut);
    proof {
        assert(preview@ =~= desc_preview(desc@));
    }
    let mut m = String::from_str("Skill '");
    push_str(&mut m, name.as_str());
    push_str(&mut m, "' has placeholder description: '");
    push_str(&mut m, preview.as_str());
    push_str(&mut m, "'");
    let mut f = String::from_str("Edit ");
    push_str(&mut f, path.as_str());
    push_str(&mut f, "/SKILL.md and write a real description");
    let mut k = String::from_str("placeholder:");
    push_str(&mut k, name.as_str());
    Finding::warning_with_path(m, f, k, path.clone())
}

fn mk_short_desc(name: &String, desc: &String, byte_len: usize, path: &String) -> (r: Finding)
    ensures
        r@ == short_desc_finding(name@, desc@, byte_len as int, path@),
{
    let ln = dec_u64(byte_len as u64);
    let mut m = String::from_str("Skill '");
    push_str(&mut m, name.as_str());
    push_str(&mut m, "' has very short description (");
    push_str(&mut m, ln.as_str());
    push_str(&mut m, " chars): '");
    push_str(&mut m, desc.as_str());
    push_str(&mut m, "'");
    let mut f = String::from_str("Edit ");
    push_str(&mut f, path.as_str());
    push_str(&mut f, "/SKILL.md and expand the description");
    let mut k = String::from_str("short-description:");
    push_str(&mut k, name.as_str());
    Finding::warning_with_path(m, f, k, path.clone())
}

fn mk_pipeline_missing(pipeline: &String, skill: &String, dep: &String, is_after: bool) -> (r:
    Finding)
    ensures
        r@ == pipeline_missing_finding(pipeline@, skill@, dep@, is_after),
{
    let word: &'static str = if is_after {
        "after"
    } else {
        "before"
    };
    let mut m = String::from_str("Pipeline '");
    push_str(&mut m, pipeline.as_str());
    push_str(&mut m, "': skill '");
    push_str(&mut m, skill.as_str());
    push_str(&mut m, "' declares ");
    push_str(&mut m, word);
    push_str(&mut m, ": ['");
    push_str(&mut m, dep.as_str());
    push_str(&mut m, "'] but skill doesn't exist");
    let mut f = String::from_str("Create the skill with `loadout new ");
    push_str(&mut f, dep.as_str());
    push_str(&mut f, "`, or remove it from the ");
    push_str(&mut f, word);
    push_str(&mut f, " list");
    let mut k = String::from_str("pipeline-missing:");
    push_str(&mut k, pipeline.as_str());
    push_str(&mut k, ":");
    push_str(&mut k, skill.as_str());
    push_str(&mut k, ":");
    push_str(&mut k, dep.as_str());
    Finding::error(m, f, k)
}

fn mk_pipeline_gap(pipeline: &String, skill: &String, dep: &String) -> (r: Finding)
    ensures
        r@ == pipeline_gap_finding(pipeline@, skill@, dep@),
{
    let mut m = String::from_str("Pipeline '");
    push_str(&mut m, pipeline.as_str());
    push_str(&mut m, "': '");
    push_str(&mut m, skill.as_str());
    push_str(&mut m, "' declares after: ['");
    push_str(&mut m, dep.as_str());
    push_str(&mut m, "'] but '");
    push_str(&mut m, dep.as_str());
    push_str(&mut m, "' doesn't declare before: ['");
    push_str(&mut m, skill.as_str());
    push_str(&mut m, "']");
    let mut f = String::from_str("Add before: ['");
    push_str(&mut f, skill.as_str());
    push_str(&mut f, "'] to skill '");
    push_str(&mut f, dep.as_str());
    push_str(&mut f, "' in pipeline '");
    push_str(&mut f, pipeline.as_str());
    push_str(&mut f, "'");
    let mut k = String::from_str("pipeline-gap:");
    push_str(&mut k, pipeline.as_str());
    push_str(&mut k, ":");
    push_str(&mut k, skill.as_str());
    push_str(&mut k, ":");
    push_str(&mut k, dep.as_str());
    Finding::warning(m, f, k)
}

fn mk_no_metadata(name: &String, path: &String) -> (r: Finding)
    ensures
        r@ == no_metadata_finding(name@, path@),
{
    let mut m = String::from_str("Skill '");
    push_str(&mut m, name.as_str());
    push_str(&mut m, "' has no tags and isn't in any pipeline");
    let mut f = String::from_str("Add tags: [<tag>] or pipeline metadata to ");
    push_str(&mut f, path.as_str());
    push_str(&mut f, "/SKILL.md");
    let mut k = String::from_str("no-metadata:");
    push_str(&mut k, name.as_str());
    Finding::info(m, f, k)
}


// ---------------------------------------------------------------------------
// Check 1: dangling references
// ---------------------------------------------------------------------------

pub open spec fn dangling_refs_from(
    source: Seq<char>,
    refs: Seq<CrossRefV>,
    known: Seq<Seq<char>>,
    j: int,
) -> Seq<FindingV>
    decreases refs.len() - j when 0 <= j
{
    if j >= refs.len() {
        Seq::empty()
    } else {
        (if !known.contains(refs[j].target) {
            seq![dangling_finding(source, refs[j].target, refs[j].line)]
        } else {
            Seq::empty()
        }) + dangling_refs_from(source, refs, known, j + 1)
    }
}

pub open spec fn dangling_from(
    cr: Seq<(Seq<char>, Seq<CrossRefV>)>,
    known: Seq<Seq<char>>,
    i: int,
) -> Seq<FindingV>
    decreases cr.len() - i when 0 <= i
{
    if i >= cr.len() {
        Seq::empty()
    } else {
        dangling_refs_from(cr[i].0, cr[i].1, known, 0) + dangling_from(cr, known, i + 1)
    }
}

/// What the dangling-reference check reports: one error for every reference
/// whose target is not a known skill, in input order.
pub open spec fn spec_check_dangling(
    cr: Seq<(Seq<char>, Seq<CrossRefV>)>,
    known: Seq<Seq<char>>,
) -> Seq<FindingV> {
    dangling_from(cr, known, 0)
}

/// Reports every cross-reference whose target is not a known skill.
pub fn check_dangling_references(
    crossrefs: &Vec<(String, Vec<CrossRef>)>,
    known: &Vec<String>,
) -> (r: Vec<Finding>)
    ensures
        r.deep_view() == spec_check_dangling(crossrefs.deep_view(), known.deep_view()),
{
    let ghost crv = crossrefs.deep_view();
    let ghost kn = known.deep_view();
    let mut out: Vec<Finding> = Vec::new();
    let mut i: usize = 0;
    while i < crossrefs.len()
        invariant
            i <= crossrefs@.len(),
            crv == crossrefs.deep_view(),
            crv.len() == crossrefs@.len(),
            kn == known.deep_view(),
            out.deep_view() + dangling_from(crv, kn, i as int) == dangling_from(crv, kn, 0),
        decreases crossrefs@.len() - i,
    {
        let pair = &crossrefs[i];
        let ghost source = crv[i as int].0;
        let ghost refs = crv[i as int].1;
        proof {
            assert(crv[i as int] == crossrefs@[i as int].deep_view());
            assert(source == pair.0@);
            assert(refs == pair.1.deep_view());
        }
        let mut j: usize = 0;
        while j < pair.1.len()
            invariant
                j <= pair.1@.len(),
                i < crossrefs@.len(),
                crv == crossrefs.deep_view(),
                crv.len() == crossrefs@.len(),
                kn == known.deep_view(),
                source == pair.0@,
                refs == pair.1.deep_view(),
                refs.len() == pair.1@.len(),
                out.deep_view() + dangling_refs_from(source, refs, kn, j as int)
                    + dangling_from(crv, kn, i as int + 1) == dangling_from(crv, kn, 0),
            decreases pair.1@.len() - j,
        {
            let cr = &pair.1[j];
            let ghost x = refs[j as int];
            proof {
                assert(x == pair.1@[j as int]@);
            }
            let is_known = vec_contains_string(known, cr.target.as_str());
            let ghost prev = out.deep_view();
            if !is_known {
                out.push(mk_dangling(&pair.0, &cr.target, cr.line));
                proof {
                    assert(out.deep_view() =~~= prev.push(
                        dangling_finding(source, x.target, x.line),
                    ));
                }
            }
            proof {
                assert(dangling_refs_from(source, refs, kn, j as int) == (if !kn.contains(
                    x.target,
                ) {
                    seq![dangling_finding(source, x.target, x.line)]
                } else {
                    Seq::<FindingV>::empty()
                }) + dangling_refs_from(source, refs, kn, j as int + 1));
                assert(out.deep_view() + dangling_refs_from(source, refs, kn, j as int + 1)
                    =~= prev + dangling_refs_from(source, refs, kn, j as int));
            }
            j = j + 1;
        }
        proof {
            assert(dangling_refs_from(source, refs, kn, refs.len() as int)
                =~= Seq::<FindingV>::empty());
            assert(dangling_from(crv, kn, i as int) == dangling_refs_from(source, refs, kn, 0)
                + dangling_from(crv, kn, i as int + 1));
            assert(out.deep_view() + Seq::<FindingV>::empty() + dangling_from(
                crv,
                kn,
                i as int + 1,
            ) =~= out.deep_view() + dangling_from(crv, kn, i as int + 1));
        }
        i = i + 1;
    }
    proof {
        assert(dangling_from(crv, kn, i as int) =~= Seq::<FindingV>::empty());
        assert(out.deep_view() + Seq::<FindingV>::empty() =~= out.deep_view());
    }
    out
}

// ---------------------------------------------------------------------------
// Check 2: orphaned skills
// ---------------------------------------------------------------------------

pub open spec fn project_skills_from(projects: Seq<(Seq<char>, crate::config::ProjectV)>, i: int)
    -> Seq<Seq<char>>
    decreases projects.len() - i when 0 <= i
{
    if i >= projects.len() {
        Seq::empty()
    } else {
        projects[i].1.skills + project_skills_from(projects, i + 1)
    }
}

/// Every skill name the configuration mentions: the global list, then each
/// project's list.
pub open spec fn spec_mentioned(cfg: ConfigV) -> Seq<Seq<char>> {
    cfg.global_skills + project_skills_from(cfg.projects, 0)
}

pub open spec fn orphaned_from(skills: Seq<SkillV>, mentioned: Seq<Seq<char>>, i: int) -> Seq<
    FindingV,
>
    decreases skills.len() - i when 0 <= i
{
    if i >= skills.len() {
        Seq::empty()
    } else {
        (if !mentioned.contains(skills[i].name) {
            seq![orphaned_finding(skills[i].name, skills[i].path)]
        } else {
            Seq::empty()
        }) + orphaned_from(skills, mentioned, i + 1)
    }
}

/// What the orphan check reports: a warning for every discovered skill that
/// no configuration section mentions.
pub open spec fn spec_check_orphaned(cfg: ConfigV, skills: Seq<SkillV>) -> Seq<FindingV> {
    orphaned_from(skills, spec_mentioned(cfg), 0)
}

/// Collects every skill name the configuration mentions.
fn mentioned_skills(config: &Config) -> (r: Vec<String>)
    ensures
        r.deep_view() == spec_mentioned(config@),
{
    let ghost cfg = config@;
    let mut r = clone_names(&config.global.skills);
    let mut i: usize = 0;
    proof {
        assert(r.deep_view() + project_skills_from(cfg.projects, 0) =~= spec_mentioned(cfg));
    }
    while i < config.projects.len()
        invariant
            i <= config.projects@.len(),
            cfg == config@,
            cfg.projects.len() == config.projects@.len(),
            r.deep_view() + project_skills_from(cfg.projects, i as int) == spec_mentioned(cfg),
        decreases config.projects@.len() - i,
    {
        let ghost prev = r.deep_view();
        let mut more = clone_names(&config.projects[i].1.skills);
        proof {
            assert(cfg.projects[i as int] == config.projects@[i as int].deep_view());
            assert(more.deep_view() == cfg.projects[i as int].1.skills);
        }
        r.append(&mut more);
        proof {
            assert(r.deep_view() =~~= prev + cfg.projects[i as int].1.skills);
            assert(project_skills_from(cfg.projects, i as int) == cfg.projects[i as int].1.skills
                + project_skills_from(cfg.projects, i as int + 1));
            assert(r.deep_view() + project_skills_from(cfg.projects, i as int + 1) =~= prev
                + project_skills_from(cfg.projects, i as int));
        }
        i = i + 1;
    }
    proof {
        assert(project_skills_from(cfg.projects, i as int) =~= Seq::<Seq<char>>::empty());
        assert(r.deep_view() + Seq::<Seq<char>>::empty() =~= r.deep_view());
    }
    r
}

/// Reports every discovered skill that no configuration section mentions.
pub fn check_orphaned_skills(config: &Config, all_skills: &Vec<Skill>) -> (r: Vec<Finding>)
    ensures
        r.deep_view() == spec_check_orphaned(config@, all_skills.deep_view()),
{
    let ghost sdv = all_skills.deep_view();
    let mentioned = mentioned_skills(config);
    let ghost men = mentioned.deep_view();
    let mut out: Vec<Finding> = Vec::new();
    let mut i: usize = 0;
    while i < all_skills.len()
        invariant
            i <= all_skills@.len(),
            sdv == all_skills.deep_view(),
            sdv.len() == all_skills@.len(),
            men == mentioned.deep_view(),
            men == spec_mentioned(config@),
            out.deep_view() + orphaned_from(sdv, men, i as int) == orphaned_from(sdv, men, 0),
        decreases all_skills@.len() - i,
    {
        let sk = &all_skills[i];
        let ghost x = sdv[i as int];
        proof {
            assert(x == all_skills@[i as int]@);
        }
        let is_mentioned = vec_contains_string(&mentioned, sk.name.as_str());
        let ghost prev = out.deep_view();
        if !is_mentioned {
            out.push(mk_orphaned(&sk.name, &sk.path));
            proof {
                assert(out.deep_view() =~~= prev.push(orphaned_finding(x.name, x.path)));
            }
        }
        proof {
            assert(orphaned_from(sdv, men, i as int) == (if !men.contains(x.name) {
                seq![orphaned_finding(x.name, x.path)]
            } else {
                Seq::<FindingV>::empty()
            }) + orphaned_from(sdv, men, i as int + 1));
            assert(out.deep_view() + orphaned_from(sdv, men, i as int + 1) =~= prev
                + orphaned_from(sdv, men, i as int));
        }
        i = i + 1;
    }
    proof {
        assert(orphaned_from(sdv, men, i as int) =~= Seq::<FindingV>::empty());
        assert(out.deep_view() + Seq::<FindingV>::empty() =~= out.deep_view());
    }
    out
}

// ---------------------------------------------------------------------------
// Checks 3, 4, 7, 9: per-skill rules
// ---------------------------------------------------------------------------

pub open spec fn mismatch_from(skills: Seq<SkillV>, i: int) -> Seq<FindingV>
    decreases skills.len() - i when 0 <= i
{
    if i >= skills.len() {
        Seq::empty()
    } else {
        (if spec_basename(skills[i].path) != skills[i].name {
            seq![mismatch_finding(skills[i].name, spec_basename(skills[i].path), skills[i].path)]
        } else {
            Seq::empty()
        }) + mismatch_from(skills, i + 1)
    }
}

/// What the name/directory check reports: an error wherever the declared
/// name differs from the directory's basename.
pub open spec fn spec_check_mismatch(skills: Seq<SkillV>) -> Seq<FindingV> {
    mismatch_from(skills, 0)
}

/// Reports every skill whose declared name differs from its directory name.
pub fn check_name_directory_mismatch(all_skills: &Vec<Skill>) -> (r: Vec<Finding>)
    ensures
        r.deep_view() == spec_check_mismatch(all_skills.deep_view()),
{
    let ghost sdv = all_skills.deep_view();
    let mut out: Vec<Finding> = Vec::new();
    let mut i: usize = 0;
    while i < all_skills.len()
        invariant
            i <= all_skills@.len(),
            sdv == all_skills.deep_view(),
            sdv.len() == all_skills@.len(),
            out.deep_view() + mismatch_from(sdv, i as int) == mismatch_from(sdv, 0),
        decreases all_skills@.len() - i,
    {
        let sk = &all_skills[i];
        let ghost x = sdv[i as int];
        proof {
            assert(x == all_skills@[i as int]@);
        }
        let dir = basename(sk.path.as_str());
        let same = str_eq(sk.name.as_str(), dir.as_str());
        let ghost prev = out.deep_view();
        if !same {
            out.push(mk_mismatch(&sk.name, &dir, &sk.path));
            proof {
                assert(out.deep_view() =~~= prev.push(
                    mismatch_finding(x.name, spec_basename(x.path), x.path),
                ));
            }
        }
        proof {
            assert(mismatch_from(sdv, i as int) == (if spec_basename(x.path) != x.name {
                seq![mismatch_finding(x.name, spec_basename(x.path), x.path)]
            } else {
                Seq::<FindingV>::empty()
            }) + mismatch_from(sdv, i as int + 1));
            assert(out.deep_view() + mismatch_from(sdv, i as int + 1) =~= prev + mismatch_from(
                sdv,
                i as int,
            ));
        }
        i = i + 1;
    }
    proof {
        assert(mismatch_from(sdv, i as int) =~= Seq::<FindingV>::empty());
        assert(out.deep_view() + Seq::<FindingV>::empty() =~= out.deep_view());
    }
    out
}

pub open spec fn empty_desc_from(skills: Seq<SkillV>, i: int) -> Seq<FindingV>
    decreases skills.len() - i when 0 <= i
{
    if i >= skills.len() {
        Seq::empty()
    } else {
        (if skills[i].frontmatter.description.len() == 0 {
            seq![empty_desc_finding(skills[i].name, skills[i].path)]
        } else {
            Seq::empty()
        }) + empty_desc_from(skills, i + 1)
    }
}

/// What the empty-description check reports.
pub open spec fn spec_check_empty_desc(skills: Seq<SkillV>) -> Seq<FindingV> {
    empty_desc_from(skills, 0)
}

/// Reports every skill whose description is empty.
pub fn check_missing_frontmatter(all_skills: &Vec<Skill>) -> (r: Vec<Finding>)
    ensures
        r.deep_view() == spec_check_empty_desc(all_skills.deep_view()),
{
    let ghost sdv = all_skills.deep_view();
    let mut out: Vec<Finding> = Vec::new();
    let mut i: usize = 0;
    while i < all_skills.len()
        invariant
            i <= all_skills@.len(),
            sdv == all_skills.deep_view(),
            sdv.len() == all_skills@.len(),
            out.deep_view() + empty_desc_from(sdv, i as int) == empty_desc_from(sdv, 0),
        decreases all_skills@.len() - i,
    {
        let sk = &all_skills[i];
        let ghost x = sdv[i as int];
        proof {
            assert(x == all_skills@[i as int]@);
        }
        let empty = sk.frontmatter.description.as_str().is_empty();
        let ghost prev = out.deep_view();
        if empty {
            out.push(mk_empty_desc(&sk.name, &sk.path));
            proof {
                assert(out.deep_view() =~~= prev.push(empty_desc_finding(x.name, x.path)));
            }
        }
        proof {
            assert(empty_desc_from(sdv, i as int) == (if x.frontmatter.description.len() == 0 {
                seq![empty_desc_finding(x.name, x.path)]
            } else {
                Seq::<FindingV>::empty()
            }) + empty_desc_from(sdv, i as int + 1));
            assert(out.deep_view() + empty_desc_from(sdv, i as int + 1) =~= prev
                + empty_desc_from(sdv, i as int));
        }
        i = i + 1;
    }
    proof {
        assert(empty_desc_from(sdv, i as int) =~= Seq::<FindingV>::empty());
        assert(out.deep_view() + Seq::<FindingV>::empty() =~= out.deep_view());
    }
    out
}

/// A description that is only a placeholder: it contains one of the four
/// fixed placeholder texts.
pub open spec fn is_placeholder(desc: Seq<char>) -> bool {
    lit_contains(desc, "Description here"@) || lit_contains(desc, "TODO"@) || lit_contains(
        desc,
        "TBD"@,
    ) || lit_contains(desc, "FIXME"@)
}

pub open spec fn desc_byte_len(desc: Seq<char>) -> int {
    vstd::utf8::encode_utf8(desc).len() as int
}

pub open spec fn placeholder_from(skills: Seq<SkillV>, i: int) -> Seq<FindingV>
    decreases skills.len() - i when 0 <= i
{
    if i >= skills.len() {
        Seq::empty()
    } else {
        (if is_placeholder(skills[i].frontmatter.description) {
            seq![
                placeholder_finding(
                    skills[i].name,
                    skills[i].frontmatter.description,
                    skills[i].path,
                ),
            ]
        } else if desc_byte_len(skills[i].frontmatter.description) < 10 {
            seq![
                short_desc_finding(
                    skills[i].name,
                    skills[i].frontmatter.description,
                    desc_byte_len(skills[i].frontmatter.description),
                    skills[i].path,
                ),
            ]
        } else {
            Seq::empty()
        }) + placeholder_from(skills, i + 1)
    }
}

/// What the placeholder check reports: a placeholder warning, or else a
/// short-description warning, never both for one skill.
pub open spec fn spec_check_placeholder(skills: Seq<SkillV>) -> Seq<FindingV> {
    placeholder_from(skills, 0)
}

fn is_placeholder_exec(desc: &String) -> (r: bool)
    ensures
        r == is_placeholder(desc@),
{
    let dv = chars_vec(desc.as_str());
    let p1 = chars_vec("Description here");
    let p2 = chars_vec("TODO");
    let p3 = chars_vec("TBD");
    let p4 = chars_vec("FIXME");
    lit_contains_exec(&dv, &p1) || lit_contains_exec(&dv, &p2) || lit_contains_exec(&dv, &p3)
        || lit_contains_exec(&dv, &p4)
}

/// Reports placeholder descriptions, and very short ones where no
/// placeholder text was found.
pub fn check_placeholder_descriptions(all_skills: &Vec<Skill>) -> (r: Vec<Finding>)
    ensures
        r.deep_view() == spec_check_placeholder(all_skills.deep_view()),
{
    let ghost sdv = all_skills.deep_view();
    let mut out: Vec<Finding> = Vec::new();
    let mut i: usize = 0;
    while i < all_skills.len()
        invariant
            i <= all_skills@.len(),
            sdv == all_skills.deep_view(),
            sdv.len() == all_skills@.len(),
            out.deep_view() + placeholder_from(sdv, i as int) == placeholder_from(sdv, 0),
        decreases all_skills@.len() - i,
    {
        let sk = &all_skills[i];
        let ghost x = sdv[i as int];
        proof {
            assert(x == all_skills@[i as int]@);
        }
        let ghost prev = out.deep_view();
        if is_placeholder_exec(&sk.frontmatter.description) {
            out.push(mk_placeholder(&sk.name, &sk.frontmatter.description, &sk.path));
            proof {
                assert(out.deep_view() =~~= prev.push(
                    placeholder_finding(x.name, x.frontmatter.description, x.path),
                ));
            }
        } else {
            let bytes = sk.frontmatter.description.as_str().as_bytes_vec();
            let blen = bytes.len();
            proof {
                assert(blen as int == desc_byte_len(x.frontmatter.description));
            }
            if blen < 10 {
                out.push(mk_short_desc(&sk.name, &sk.frontmatter.description, blen, &sk.path));
                proof {
                    assert(out.deep_view() =~~= prev.push(
                        short_desc_finding(
                            x.name,
                            x.frontmatter.description,
                            desc_byte_len(x.frontmatter.description),
                            x.path,
                        ),
                    ));
                }
            }
        }
        proof {
            assert(out.deep_view() + placeholder_from(sdv, i as int + 1) =~= prev
                + placeholder_from(sdv, i as int));
        }
        i = i + 1;
    }
    proof {
        assert(placeholder_from(sdv, i as int) =~= Seq::<FindingV>::empty());
        assert(out.deep_view() + Seq::<FindingV>::empty() =~= out.deep_view());
    }
    out
}

/// Whether a skill carries any metadata the adoption gate counts: nonempty
/// tags or any pipeline membership.
pub open spec fn has_tags(fm: crate::frontmatter::FrontmatterV) -> bool {
    match fm.tags {
        Some(t) => t.len() > 0,
        None => false,
    }
}

pub open spec fn has_pipeline(fm: crate::frontmatter::FrontmatterV) -> bool {
    fm.pipeline is Some
}

/// The adoption gate: at least one skill carries tags or a pipeline.
pub open spec fn any_annotated(skills: Seq<SkillV>) -> bool {
    exists|i: int|
        0 <= i < skills.len() && (has_tags(skills[i].frontmatter) || has_pipeline(
            skills[i].frontmatter,
        ))
}

pub open spec fn no_metadata_from(skills: Seq<SkillV>, i: int) -> Seq<FindingV>
    decreases skills.len() - i when 0 <= i
{
    if i >= skills.len() {
        Seq::empty()
    } else {
        (if !has_tags(skills[i].frontmatter) && !has_pipeline(skills[i].frontmatter) {
            seq![no_metadata_finding(skills[i].name, skills[i].path)]
        } else {
            Seq::empty()
        }) + no_metadata_from(skills, i + 1)
    }
}

/// What the metadata check reports: nothing at all unless some skill has
/// adopted metadata; otherwise an info for every skill with none.
pub open spec fn spec_check_no_metadata(skills: Seq<SkillV>) -> Seq<FindingV> {
    if !any_annotated(skills) {
        Seq::empty()
    } else {
        no_metadata_from(skills, 0)
    }
}

fn skill_annotated(sk: &Skill) -> (r: bool)
    ensures
        r == (has_tags(sk@.frontmatter) || has_pipeline(sk@.frontmatter)),
{
    let tags_ok: bool = match &sk.frontmatter.tags {
        Some(t) => t.len() > 0,
        None => false,
    };
    tags_ok || sk.frontmatter.pipeline.is_some()
}

/// Reports skills without tags or pipeline, once any skill has adopted
/// metadata at all.
pub fn check_missing_metadata(all_skills: &Vec<Skill>) -> (r: Vec<Finding>)
    ensures
        r.deep_view() == spec_check_no_metadata(all_skills.deep_view()),
{
    let ghost sdv = all_skills.deep_view();
    // the adoption gate
    let mut anyone: bool = false;
    let mut i: usize = 0;
    while i < all_skills.len()
        invariant
            i <= all_skills@.len(),
            sdv == all_skills.deep_view(),
            sdv.len() == all_skills@.len(),
            anyone == exists|m: int|
                0 <= m < i && (has_tags((#[trigger] sdv[m]).frontmatter) || has_pipeline(
                    sdv[m].frontmatter,
                )),
        decreases all_skills@.len() - i,
    {
        if skill_annotated(&all_skills[i]) {
            proof {
                assert(sdv[i as int] == all_skills@[i as int]@);
                assert(has_tags(sdv[i as int].frontmatter) || has_pipeline(
                    sdv[i as int].frontmatter,
                ));
            }
            anyone = true;
        }
        proof {
            assert(sdv[i as int] == all_skills@[i as int]@);
        }
        i = i + 1;
    }
    if !anyone {
        proof {
            assert(!any_annotated(sdv));
        }
        return Vec::new();
    }
    proof {
        assert(any_annotated(sdv));
    }
    let mut out: Vec<Finding> = Vec::new();
    let mut k: usize = 0;
    while k < all_skills.len()
        invariant
            k <= all_skills@.len(),
            sdv == all_skills.deep_view(),
            sdv.len() == all_skills@.len(),
            any_annotated(sdv),
            out.deep_view() + no_metadata_from(sdv, k as int) == no_metadata_from(sdv, 0),
        decreases all_skills@.len() - k,
    {
        let sk = &all_skills[k];
        let ghost x = sdv[k as int];
        proof {
            assert(x == all_skills@[k as int]@);
        }
        let annotated = skill_annotated(sk);
        let ghost prev = out.deep_view();
        if !annotated {
            out.push(mk_no_metadata(&sk.name, &sk.path));
            proof {
                assert(out.deep_view() =~~= prev.push(no_metadata_finding(x.name, x.path)));
            }
        }
        proof {
            assert(out.deep_view() + no_metadata_from(sdv, k as int + 1) =~= prev
                + no_metadata_from(sdv, k as int));
        }
        k = k + 1;
    }
    proof {
        assert(no_metadata_from(sdv, k as int) =~= Seq::<FindingV>::empty());
        assert(out.deep_view() + Seq::<FindingV>::empty() =~= out.deep_view());
    }
    out
}

// ---------------------------------------------------------------------------
// Checks 5 and 6: target-directory listings
// ---------------------------------------------------------------------------

pub open spec fn broken_entries_from(
    dir: Seq<char>,
    entries: Seq<crate::target::TargetEntryV>,
    j: int,
) -> Seq<FindingV>
    decreases entries.len() - j when 0 <= j
{
    if j >= entries.len() {
        Seq::empty()
    } else {
        (if entries[j].is_symlink && !entries[j].readable {
            seq![broken_symlink_finding(dir, entries[j].name)]
        } else {
            Seq::empty()
        }) + broken_entries_from(dir, entries, j + 1)
    }
}

pub open spec fn broken_from(listings: Seq<TargetListingV>, i: int) -> Seq<FindingV>
    decreases listings.len() - i when 0 <= i
{
    if i >= listings.len() {
        Seq::empty()
    } else {
        (if listings[i].exists {
            broken_entries_from(listings[i].dir, listings[i].entries, 0)
        } else {
            Seq::empty()
        }) + broken_from(listings, i + 1)
    }
}

/// What the broken-symlink check reports: an error for every symlink entry
/// whose referent cannot be read, in existing target directories.
pub open spec fn spec_check_broken(listings: Seq<TargetListingV>) -> Seq<FindingV> {
    broken_from(listings, 0)
}

/// Reports every symlink in a target directory whose referent is gone.
pub fn check_broken_symlinks(listings: &Vec<TargetListing>) -> (r: Vec<Finding>)
    ensures
        r.deep_view() == spec_check_broken(listings.deep_view()),
{
    let ghost ldv = listings.deep_view();
    let mut out: Vec<Finding> = Vec::new();
    let mut i: usize = 0;
    while i < listings.len()
        invariant
            i <= listings@.len(),
            ldv == listings.deep_view(),
            ldv.len() == listings@.len(),
            out.deep_view() + broken_from(ldv, i as int) == broken_from(ldv, 0),
        decreases listings@.len() - i,
    {
        let listing = &listings[i];
        let ghost lv = ldv[i as int];
        proof {
            assert(lv == listings@[i as int]@);
        }
        if listing.exists {
            let mut j: usize = 0;
            while j < listing.entries.len()
                invariant
                    j <= listing.entries@.len(),
                    i < listings@.len(),
                    ldv == listings.deep_view(),
                    ldv.len() == listings@.len(),
                    lv == listings@[i as int]@,
                    lv == ldv[i as int],
                    lv.entries.len() == listing.entries@.len(),
                    lv.entries == listing.entries.deep_view(),
                    lv.dir == listing.dir@,
                    out.deep_view() + broken_entries_from(lv.dir, lv.entries, j as int)
                        + broken_from(ldv, i as int + 1) == broken_from(ldv, 0),
                decreases listing.entries@.len() - j,
            {
                let e = &listing.entries[j];
                let ghost x = lv.entries[j as int];
                proof {
                    assert(x == listing.entries@[j as int]@);
                }
                let ghost prev = out.deep_view();
                if e.is_symlink && !e.readable {
                    out.push(mk_broken_symlink(&listing.dir, &e.name));
                    proof {
                        assert(out.deep_view() =~~= prev.push(
                            broken_symlink_finding(lv.dir, x.name),
                        ));
                    }
                }
                proof {
                    assert(out.deep_view() + broken_entries_from(lv.dir, lv.entries, j as int + 1)
                        =~= prev + broken_entries_from(lv.dir, lv.entries, j as int));
                }
                j = j + 1;
            }
            proof {
                assert(broken_entries_from(lv.dir, lv.entries, lv.entries.len() as int)
                    =~= Seq::<FindingV>::empty());
                assert(out.deep_view() + Seq::<FindingV>::empty() + broken_from(
                    ldv,
                    i as int + 1,
                ) =~= out.deep_view() + broken_from(ldv, i as int + 1));
            }
        } else {
            proof {
                assert(out.deep_view() + Seq::<FindingV>::empty() + broken_from(
                    ldv,
                    i as int + 1,
                ) =~= out.deep_view() + broken_from(ldv, i as int + 1));
            }
        }
        i = i + 1;
    }
    proof {
        assert(broken_from(ldv, i as int) =~= Seq::<FindingV>::empty());
        assert(out.deep_view() + Seq::<FindingV>::empty() =~= out.deep_view());
    }
    out
}

pub open spec fn unmanaged_entries_from(
    dir: Seq<char>,
    entries: Seq<crate::target::TargetEntryV>,
    j: int,
) -> Seq<FindingV>
    decreases entries.len() - j when 0 <= j
{
    if j >= entries.len() {
        Seq::empty()
    } else {
        (if !entries[j].is_symlink && entries[j].is_dir && !entries[j].has_marker {
            seq![unmanaged_finding(dir, entries[j].name)]
        } else {
            Seq::empty()
        }) + unmanaged_entries_from(dir, entries, j + 1)
    }
}

pub open spec fn unmanaged_from(listings: Seq<TargetListingV>, i: int) -> Seq<FindingV>
    decreases listings.len() - i when 0 <= i
{
    if i >= listings.len() {
        Seq::empty()
    } else {
        (if listings[i].exists {
            unmanaged_entries_from(listings[i].dir, listings[i].entries, 0)
        } else {
            Seq::empty()
        }) + unmanaged_from(listings, i + 1)
    }
}

/// What the unmanaged-conflict check reports: a warning for every plain
/// directory inside a target that lacks the marker file.
pub open spec fn spec_check_unmanaged(listings: Seq<TargetListingV>) -> Seq<FindingV> {
    unmanaged_from(listings, 0)
}

/// Reports every unmanaged directory occupying a slot in a target.
pub fn check_unmanaged_conflicts(listings: &Vec<TargetListing>) -> (r: Vec<Finding>)
    ensures
        r.deep_view() == spec_check_unmanaged(listings.deep_view()),
{
    let ghost ldv = listings.deep_view();
    let mut out: Vec<Finding> = Vec::new();
    let mut i: usize = 0;
    while i < listings.len()
        invariant
            i <= listings@.len(),
            ldv == listings.deep_view(),
            ldv.len() == listings@.len(),
            out.deep_view() + unmanaged_from(ldv, i as int) == unmanaged_from(ldv, 0),
        decreases listings@.len() - i,
    {
        let listing = &listings[i];
        let ghost lv = ldv[i as int];
        proof {
            assert(lv == listings@[i as int]@);
        }
        if listing.exists {
            let mut j: usize = 0;
            while j < listing.entries.len()
                invariant
                    j <= listing.entries@.len(),
                    i < listings@.len(),
                    ldv == listings.deep_view(),
                    ldv.len() == listings@.len(),
                    lv == listings@[i as int]@,
                    lv == ldv[i as int],
                    lv.entries.len() == listing.entries@.len(),
                    lv.entries == listing.entries.deep_view(),
                    lv.dir == listing.dir@,
                    out.deep_view() + unmanaged_entries_from(lv.dir, lv.entries, j as int)
                        + unmanaged_from(ldv, i as int + 1) == unmanaged_from(ldv, 0),
                decreases listing.entries@.len() - j,
            {
                let e = &listing.entries[j];
                let ghost x = lv.entries[j as int];
                proof {
                    assert(x == listing.entries@[j as int]@);
                }
                let ghost prev = out.deep_view();
                if !e.is_symlink && e.is_dir && !e.has_marker {
                    out.push(mk_unmanaged(&listing.dir, &e.name));
                    proof {
                        assert(out.deep_view() =~~= prev.push(unmanaged_finding(lv.dir, x.name)));
                    }
                }
                proof {
                    assert(out.deep_view() + unmanaged_entries_from(
                        lv.dir,
                        lv.entries,
                        j as int + 1,
                    ) =~= prev + unmanaged_entries_from(lv.dir, lv.entries, j as int));
                }
                j = j + 1;
            }
            proof {
                assert(unmanaged_entries_from(lv.dir, lv.entries, lv.entries.len() as int)
                    =~= Seq::<FindingV>::empty());
                assert(out.deep_view() + Seq::<FindingV>::empty() + unmanaged_from(
                    ldv,
                    i as int + 1,
                ) =~= out.deep_view() + unmanaged_from(ldv, i as int + 1));
            }
        } else {
            proof {
                assert(out.deep_view() + Seq::<FindingV>::empty() + unmanaged_from(
                    ldv,
                    i as int + 1,
                ) =~= out.deep_view() + unmanaged_from(ldv, i as int + 1));
            }
        }
        i = i + 1;
    }
    proof {
        assert(unmanaged_from(ldv, i as int) =~= Seq::<FindingV>::empty());
        assert(out.deep_view() + Seq::<FindingV>::empty() =~= out.deep_view());
    }
    out
}


// ---------------------------------------------------------------------------
// Check 8: pipeline integrity
// ---------------------------------------------------------------------------

/// Pipeline groups: each pipeline name with the (skill, stage) declarations
/// made for it, both in first-occurrence order.
pub open spec fn find_group_from(
    gs: Seq<(Seq<char>, Seq<(Seq<char>, PipelineStageV)>)>,
    name: Seq<char>,
    i: int,
) -> int
    decreases gs.len() - i when 0 <= i
{
    if i >= gs.len() {
        -1
    } else if gs[i].0 == name {
        i
    } else {
        find_group_from(gs, name, i + 1)
    }
}

/// Adds one (skill, stage) declaration to its pipeline's group, opening a
/// new group at the end for a pipeline not seen before.
pub open spec fn upsert_group(
    gs: Seq<(Seq<char>, Seq<(Seq<char>, PipelineStageV)>)>,
    pname: Seq<char>,
    entry: (Seq<char>, PipelineStageV),
) -> Seq<(Seq<char>, Seq<(Seq<char>, PipelineStageV)>)> {
    let i = find_group_from(gs, pname, 0);
    if i < 0 {
        gs.push((pname, seq![entry]))
    } else {
        gs.update(i, (gs[i].0, gs[i].1.push(entry)))
    }
}

pub open spec fn add_skill_entries(
    gs: Seq<(Seq<char>, Seq<(Seq<char>, PipelineStageV)>)>,
    sname: Seq<char>,
    plist: Seq<(Seq<char>, PipelineStageV)>,
    j: int,
) -> Seq<(Seq<char>, Seq<(Seq<char>, PipelineStageV)>)>
    decreases plist.len() - j when 0 <= j
{
    if j >= plist.len() {
        gs
    } else {
        add_skill_entries(upsert_group(gs, plist[j].0, (sname, plist[j].1)), sname, plist, j + 1)
    }
}

pub open spec fn add_skill_groups(
    gs: Seq<(Seq<char>, Seq<(Seq<char>, PipelineStageV)>)>,
    sk: SkillV,
) -> Seq<(Seq<char>, Seq<(Seq<char>, PipelineStageV)>)> {
    match sk.frontmatter.pipeline {
        None => gs,
        Some(pl) => add_skill_entries(gs, sk.name, pl, 0),
    }
}

pub open spec fn group_from(
    skills: Seq<SkillV>,
    i: int,
    acc: Seq<(Seq<char>, Seq<(Seq<char>, PipelineStageV)>)>,
) -> Seq<(Seq<char>, Seq<(Seq<char>, PipelineStageV)>)>
    decreases skills.len() - i when 0 <= i
{
    if i >= skills.len() {
        acc
    } else {
        group_from(skills, i + 1, add_skill_groups(acc, skills[i]))
    }
}

/// The pipeline declarations of all skills, grouped by pipeline name.
pub open spec fn spec_group_pipelines(skills: Seq<SkillV>) -> Seq<
    (Seq<char>, Seq<(Seq<char>, PipelineStageV)>),
> {
    group_from(skills, 0, Seq::empty())
}

fn clone_opt_names(o: &Option<Vec<String>>) -> (r: Option<Vec<String>>)
    ensures
        r.deep_view() == o.deep_view(),
{
    match o {
        None => None,
        Some(v) => Some(clone_names(v)),
    }
}

pub(crate) fn clone_stage(st: &PipelineStage) -> (r: PipelineStage)
    ensures
        r@ == st@,
{
    let r = PipelineStage {
        stage: st.stage.clone(),
        order: st.order,
        after: clone_opt_names(&st.after),
        before: clone_opt_names(&st.before),
    };
    proof {
        assert(r@.after == st@.after);
        assert(r@.before == st@.before);
    }
    r
}

/// Groups the pipeline declarations of all skills by pipeline name, in
/// first-occurrence order.
pub fn build_pipeline_groups(all_skills: &Vec<Skill>) -> (r: Vec<
    (String, Vec<(String, PipelineStage)>),
>)
    ensures
        r.deep_view() == spec_group_pipelines(all_skills.deep_view()),
{
    let ghost sdv = all_skills.deep_view();
    let mut groups: Vec<(String, Vec<(String, PipelineStage)>)> = Vec::new();
    proof {
        assert(groups.deep_view() =~= Seq::<(Seq<char>, Seq<(Seq<char>, PipelineStageV)>)>::empty());
    }
    let mut i: usize = 0;
    while i < all_skills.len()
        invariant
            i <= all_skills@.len(),
            sdv == all_skills.deep_view(),
            sdv.len() == all_skills@.len(),
            group_from(sdv, i as int, groups.deep_view()) == spec_group_pipelines(sdv),
        decreases all_skills@.len() - i,
    {
        let sk = &all_skills[i];
        let ghost x = sdv[i as int];
        proof {
            assert(x == all_skills@[i as int]@);
        }
        match &sk.frontmatter.pipeline {
            None => {
                proof {
                    assert(add_skill_groups(groups.deep_view(), x) == groups.deep_view());
                    assert(group_from(sdv, i as int, groups.deep_view()) == group_from(
                        sdv,
                        i as int + 1,
                        groups.deep_view(),
                    ));
                }
            },
            Some(pl) => {
                let ghost plv = x.frontmatter.pipeline->Some_0;
                proof {
                    assert(plv == pl.deep_view());
                }
                let ghost g_entry = groups.deep_view();
                let mut j: usize = 0;
                while j < pl.len()
                    invariant
                        j <= pl@.len(),
                        i < all_skills@.len(),
                        sdv == all_skills.deep_view(),
                        sdv.len() == all_skills@.len(),
                        x == sdv[i as int],
                        x.name == all_skills@[i as int].name@,
                        plv == pl.deep_view(),
                        plv.len() == pl@.len(),
                        add_skill_entries(groups.deep_view(), x.name, plv, j as int)
                            == add_skill_entries(g_entry, x.name, plv, 0),
                    decreases pl@.len() - j,
                {
                    let pname = &pl[j].0;
                    let stage = &pl[j].1;
                    let ghost pv = plv[j as int];
                    proof {
                        assert(pv == pl@[j as int].deep_view());
                        assert(pv.0 == pname@);
                        assert(pv.1 == stage@);
                    }
                    let entry = (all_skills[i].name.clone(), clone_stage(stage));
                    let ghost ev = (x.name, pv.1);
                    proof {
                        assert(all_skills@[i as int]@ == x);
                        assert(entry.0@ == x.name);
                        assert(entry.1@ == pv.1);
                        assert(entry.deep_view() == ev);
                    }
                    // find the group this pipeline already has, if any
                    let ghost gdv = groups.deep_view();
                    let n = groups.len();
                    let mut g: usize = 0;
                    while g < n && !str_eq(groups[g].0.as_str(), pname.as_str())
                        invariant
                            g <= n,
                            n == groups@.len(),
                            gdv == groups.deep_view(),
                            gdv.len() == groups@.len(),
                            pv.0 == pname@,
                            forall|m: int| 0 <= m < g ==> (#[trigger] gdv[m]).0 != pname@,
                        decreases n - g,
                    {
                        proof {
                            assert(gdv[g as int] == groups@[g as int].deep_view());
                        }
                        g = g + 1;
                    }
                    proof {
                        if g < n {
                            assert(gdv[g as int] == groups@[g as int].deep_view());
                        }
                        lemma_find_group_char(gdv, pname@, g as int);
                    }
                    let ghost prevg = groups.deep_view();
                    if g < n {
                        let mut pair = groups.remove(g);
                        pair.1.push(entry);
                        groups.insert(g, pair);
                        proof {
                            assert(groups.deep_view() =~~= prevg.update(
                                g as int,
                                (prevg[g as int].0, prevg[g as int].1.push(ev)),
                            ));
                            assert(groups.deep_view() == upsert_group(prevg, pv.0, ev));
                        }
                    } else {
                        let mut single: Vec<(String, PipelineStage)> = Vec::new();
                        single.push(entry);
                        groups.push((pname.clone(), single));
                        proof {
                            assert(groups.deep_view() =~~= prevg.push((pv.0, seq![ev])));
                            assert(groups.deep_view() == upsert_group(prevg, pv.0, ev));
                        }
                    }
                    proof {
                        assert(add_skill_entries(prevg, x.name, plv, j as int)
                            == add_skill_entries(
                            upsert_group(prevg, plv[j as int].0, (x.name, plv[j as int].1)),
                            x.name,
                            plv,
                            j as int + 1,
                        ));
                        assert((x.name, plv[j as int].1) == ev);
                        assert(plv[j as int].0 == pv.0);
                    }
                    j = j + 1;
                }
                proof {
                    assert(add_skill_entries(groups.deep_view(), x.name, plv, plv.len() as int)
                        == groups.deep_view());
                    assert(groups.deep_view() == add_skill_entries(g_entry, x.name, plv, 0));
                    assert(add_skill_groups(g_entry, x) == groups.deep_view());
                    assert(group_from(sdv, i as int, g_entry) == group_from(
                        sdv,
                        i as int + 1,
                        groups.deep_view(),
                    ));
                }
            },
        }
        i = i + 1;
    }
    proof {
        assert(group_from(sdv, sdv.len() as int, groups.deep_view()) == groups.deep_view());
    }
    groups
}

proof fn lemma_find_group_char(
    gs: Seq<(Seq<char>, Seq<(Seq<char>, PipelineStageV)>)>,
    name: Seq<char>,
    j: int,
)
    requires
        0 <= j <= gs.len(),
        forall|m: int| 0 <= m < j ==> (#[trigger] gs[m]).0 != name,
        j < gs.len() ==> gs[j].0 == name,
    ensures
        find_group_from(gs, name, 0) == if j < gs.len() {
            j
        } else {
            -1
        },
{
    lemma_find_group_char_from(gs, name, 0, j);
}

proof fn lemma_find_group_char_from(
    gs: Seq<(Seq<char>, Seq<(Seq<char>, PipelineStageV)>)>,
    name: Seq<char>,
    i: int,
    j: int,
)
    requires
        0 <= i <= j <= gs.len(),
        forall|m: int| i <= m < j ==> (#[trigger] gs[m]).0 != name,
        j < gs.len() ==> gs[j].0 == name,
    ensures
        find_group_from(gs, name, i) == if j < gs.len() {
            j
        } else {
            -1
        },
    decreases j - i,
{
    if i < j {
        lemma_find_group_char_from(gs, name, i + 1, j);
    }
}

/// The names a stage declares in one direction, or nothing.
pub open spec fn opt_names(o: Option<Seq<Seq<char>>>) -> Seq<Seq<char>> {
    match o {
        Some(x) => x,
        None => Seq::empty(),
    }
}

pub open spec fn find_stage_from(
    stages: Seq<(Seq<char>, PipelineStageV)>,
    name: Seq<char>,
    i: int,
) -> int
    decreases stages.len() - i when 0 <= i
{
    if i >= stages.len() {
        -1
    } else if stages[i].0 == name {
        i
    } else {
        find_stage_from(stages, name, i + 1)
    }
}

/// Whether the named dependency declares the reciprocal `before` entry.
pub open spec fn reciprocal_declared(st: PipelineStageV, sname: Seq<char>) -> bool {
    match st.before {
        Some(b) => b.contains(sname),
        None => false,
    }
}

pub open spec fn missing_deps_from(
    pipeline: Seq<char>,
    sname: Seq<char>,
    deps: Seq<Seq<char>>,
    known: Seq<Seq<char>>,
    is_after: bool,
    j: int,
) -> Seq<FindingV>
    decreases deps.len() - j when 0 <= j
{
    if j >= deps.len() {
        Seq::empty()
    } else {
        (if !known.contains(deps[j]) {
            seq![pipeline_missing_finding(pipeline, sname, deps[j], is_after)]
        } else {
            Seq::empty()
        }) + missing_deps_from(pipeline, sname, deps, known, is_after, j + 1)
    }
}

pub open spec fn gap_deps_from(
    pipeline: Seq<char>,
    sname: Seq<char>,
    deps: Seq<Seq<char>>,
    stages: Seq<(Seq<char>, PipelineStageV)>,
    j: int,
) -> Seq<FindingV>
    decreases deps.len() - j when 0 <= j
{
    if j >= deps.len() {
        Seq::empty()
    } else {
        (if find_stage_from(stages, deps[j], 0) >= 0 && !reciprocal_declared(
            stages[find_stage_from(stages, deps[j], 0)].1,
            sname,
        ) {
            seq![pipeline_gap_finding(pipeline, sname, deps[j])]
        } else {
            Seq::empty()
        }) + gap_deps_from(pipeline, sname, deps, stages, j + 1)
    }
}

/// What one (skill, stage) declaration contributes: missing-dependency
/// errors for its `after` and `before` lists, then gap warnings for the
/// `after` list.
pub open spec fn stage_findings(
    pipeline: Seq<char>,
    sname: Seq<char>,
    st: PipelineStageV,
    stages: Seq<(Seq<char>, PipelineStageV)>,
    known: Seq<Seq<char>>,
) -> Seq<FindingV> {
    missing_deps_from(pipeline, sname, opt_names(st.after), known, true, 0) + missing_deps_from(
        pipeline,
        sname,
        opt_names(st.before),
        known,
        false,
        0,
    ) + gap_deps_from(pipeline, sname, opt_names(st.after), stages, 0)
}

pub open spec fn stages_findings_from(
    pipeline: Seq<char>,
    stages: Seq<(Seq<char>, PipelineStageV)>,
    known: Seq<Seq<char>>,
    k: int,
) -> Seq<FindingV>
    decreases stages.len() - k when 0 <= k
{
    if k >= stages.len() {
        Seq::empty()
    } else {
        stage_findings(pipeline, stages[k].0, stages[k].1, stages, known)
            + stages_findings_from(pipeline, stages, known, k + 1)
    }
}

pub open spec fn groups_findings_from(
    groups: Seq<(Seq<char>, Seq<(Seq<char>, PipelineStageV)>)>,
    known: Seq<Seq<char>>,
    g: int,
) -> Seq<FindingV>
    decreases groups.len() - g when 0 <= g
{
    if g >= groups.len() {
        Seq::empty()
    } else {
        stages_findings_from(groups[g].0, groups[g].1, known, 0) + groups_findings_from(
            groups,
            known,
            g + 1,
        )
    }
}

/// What the pipeline-integrity check reports, over the grouped declarations.
pub open spec fn spec_check_pipeline(skills: Seq<SkillV>, known: Seq<Seq<char>>) -> Seq<
    FindingV,
> {
    groups_findings_from(spec_group_pipelines(skills), known, 0)
}

/// The missing-dependency scan of one list.
fn missing_deps_exec(
    pipeline: &String,
    sname: &String,
    deps: &Option<Vec<String>>,
    known: &Vec<String>,
    is_after: bool,
    out: &mut Vec<Finding>,
)
    ensures
        final(out).deep_view() == old(out).deep_view() + missing_deps_from(
            pipeline@,
            sname@,
            opt_names(deps.deep_view()),
            known.deep_view(),
            is_after,
            0,
        ),
{
    let ghost base = out.deep_view();
    let ghost kn = known.deep_view();
    match deps {
        None => {
            proof {
                assert(missing_deps_from(pipeline@, sname@, opt_names(deps.deep_view()), kn,
                    is_after, 0) =~= Seq::<FindingV>::empty());
                assert(out.deep_view() =~= base + Seq::<FindingV>::empty());
            }
        },
        Some(list) => {
            let ghost dl = deps.deep_view()->Some_0;
            proof {
                assert(dl == list.deep_view());
            }
            let mut j: usize = 0;
            while j < list.len()
                invariant
                    j <= list@.len(),
                    kn == known.deep_view(),
                    dl == list.deep_view(),
                    dl.len() == list@.len(),
                    out.deep_view() + missing_deps_from(pipeline@, sname@, dl, kn, is_after,
                        j as int) == base + missing_deps_from(pipeline@, sname@, dl, kn,
                        is_after, 0),
                decreases list@.len() - j,
            {
                let dep = &list[j];
                let ghost d = dl[j as int];
                proof {
                    assert(d == list@[j as int]@);
                }
                let is_known = vec_contains_string(known, dep.as_str());
                let ghost prev = out.deep_view();
                if !is_known {
                    out.push(mk_pipeline_missing(pipeline, sname, dep, is_after));
                    proof {
                        assert(out.deep_view() =~~= prev.push(
                            pipeline_missing_finding(pipeline@, sname@, d, is_after),
                        ));
                    }
                }
                proof {
                    assert(out.deep_view() + missing_deps_from(pipeline@, sname@, dl, kn,
                        is_after, j as int + 1) =~= prev + missing_deps_from(pipeline@, sname@,
                        dl, kn, is_after, j as int));
                }
                j = j + 1;
            }
            proof {
                assert(missing_deps_from(pipeline@, sname@, dl, kn, is_after, dl.len() as int)
                    =~= Seq::<FindingV>::empty());
                assert(out.deep_view() =~= out.deep_view() + Seq::<FindingV>::empty());
                assert(opt_names(deps.deep_view()) == dl);
            }
        },
    }
}

/// The gap scan of one `after` list against the pipeline's own stages.
fn gap_deps_exec(
    pipeline: &String,
    sname: &String,
    deps: &Option<Vec<String>>,
    stages: &Vec<(String, PipelineStage)>,
    out: &mut Vec<Finding>,
)
    ensures
        final(out).deep_view() == old(out).deep_view() + gap_deps_from(
            pipeline@,
            sname@,
            opt_names(deps.deep_view()),
            stages.deep_view(),
            0,
        ),
{
    let ghost base = out.deep_view();
    let ghost stv = stages.deep_view();
    match deps {
        None => {
            proof {
                assert(gap_deps_from(pipeline@, sname@, opt_names(deps.deep_view()), stv, 0)
                    =~= Seq::<FindingV>::empty());
                assert(out.deep_view() =~= base + Seq::<FindingV>::empty());
            }
        },
        Some(list) => {
            let ghost dl = deps.deep_view()->Some_0;
            proof {
                assert(dl == list.deep_view());
            }
            let mut j: usize = 0;
            while j < list.len()
                invariant
                    j <= list@.len(),
                    stv == stages.deep_view(),
                    stv.len() == stages@.len(),
                    dl == list.deep_view(),
                    dl.len() == list@.len(),
                    out.deep_view() + gap_deps_from(pipeline@, sname@, dl, stv, j as int) == base
                        + gap_deps_from(pipeline@, sname@, dl, stv, 0),
                decreases list@.len() - j,
            {
                let dep = &list[j];
                let ghost d = dl[j as int];
                proof {
                    assert(d == list@[j as int]@);
                }
                // look the dependency up among this pipeline's stages
                let n = stages.len();
                let mut g: usize = 0;
                while g < n && !str_eq(stages[g].0.as_str(), dep.as_str())
                    invariant
                        g <= n,
                        n == stages@.len(),
                        stv == stages.deep_view(),
                        stv.len() == stages@.len(),
                        d == dep@,
                        forall|m: int| 0 <= m < g ==> (#[trigger] stv[m]).0 != d,
                    decreases n - g,
                {
                    proof {
                        assert(stv[g as int] == stages@[g as int].deep_view());
                    }
                    g = g + 1;
                }
                proof {
                    if g < n {
                        assert(stv[g as int] == stages@[g as int].deep_view());
                    }
                    lemma_find_stage_char(stv, d, g as int);
                }
                let ghost prev = out.deep_view();
                if g < n {
                    let dep_stage = &stages[g].1;
                    proof {
                        assert(stv[g as int] == stages@[g as int].deep_view());
                        assert(dep_stage@ == stv[g as int].1);
                    }
                    let reciprocal: bool = match &dep_stage.before {
                        Some(b) => vec_contains_string(b, sname.as_str()),
                        None => false,
                    };
                    proof {
                        assert(reciprocal == reciprocal_declared(stv[g as int].1, sname@));
                    }
                    if !reciprocal {
                        out.push(mk_pipeline_gap(pipeline, sname, dep));
                        proof {
                            assert(out.deep_view() =~~= prev.push(
                                pipeline_gap_finding(pipeline@, sname@, d),
                            ));
                        }
                    }
                }
                proof {
                    assert(out.deep_view() + gap_deps_from(pipeline@, sname@, dl, stv,
                        j as int + 1) =~= prev + gap_deps_from(pipeline@, sname@, dl, stv,
                        j as int));
                }
                j = j + 1;
            }
            proof {
                assert(gap_deps_from(pipeline@, sname@, dl, stv, dl.len() as int)
                    =~= Seq::<FindingV>::empty());
                assert(out.deep_view() =~= out.deep_view() + Seq::<FindingV>::empty());
                assert(opt_names(deps.deep_view()) == dl);
            }
        },
    }
}

proof fn lemma_find_stage_char(stages: Seq<(Seq<char>, PipelineStageV)>, name: Seq<char>, j: int)
    requires
        0 <= j <= stages.len(),
        forall|m: int| 0 <= m < j ==> (#[trigger] stages[m]).0 != name,
        j < stages.len() ==> stages[j].0 == name,
    ensures
        find_stage_from(stages, name, 0) == if j < stages.len() {
            j
        } else {
            -1
        },
{
    lemma_find_stage_char_from(stages, name, 0, j);
}

proof fn lemma_find_stage_char_from(
    stages: Seq<(Seq<char>, PipelineStageV)>,
    name: Seq<char>,
    i: int,
    j: int,
)
    requires
        0 <= i <= j <= stages.len(),
        forall|m: int| i <= m < j ==> (#[trigger] stages[m]).0 != name,
        j < stages.len() ==> stages[j].0 == name,
    ensures
        find_stage_from(stages, name, i) == if j < stages.len() {
            j
        } else {
            -1
        },
    decreases j - i,
{
    if i < j {
        lemma_find_stage_char_from(stages, name, i + 1, j);
    }
}

/// Checks every pipeline declaration: each named dependency must exist, and
/// an `after` declaration expects the matching `before` on the other side.
pub fn check_pipeline_integrity(all_skills: &Vec<Skill>, known_skills: &Vec<String>) -> (r: Vec<
    Finding,
>)
    ensures
        r.deep_view() == spec_check_pipeline(all_skills.deep_view(), known_skills.deep_view()),
{
    let ghost sdv = all_skills.deep_view();
    let ghost kn = known_skills.deep_view();
    let groups = build_pipeline_groups(all_skills);
    let ghost gdv = groups.deep_view();
    let mut out: Vec<Finding> = Vec::new();
    let mut g: usize = 0;
    while g < groups.len()
        invariant
            g <= groups@.len(),
            gdv == groups.deep_view(),
            gdv.len() == groups@.len(),
            kn == known_skills.deep_view(),
            out.deep_view() + groups_findings_from(gdv, kn, g as int) == groups_findings_from(
                gdv,
                kn,
                0,
            ),
        decreases groups@.len() - g,
    {
        let group = &groups[g];
        let ghost gv = gdv[g as int];
        proof {
            assert(gv == groups@[g as int].deep_view());
        }
        let mut k: usize = 0;
        while k < group.1.len()
            invariant
                k <= group.1@.len(),
                g < groups@.len(),
                gdv == groups.deep_view(),
                gdv.len() == groups@.len(),
                kn == known_skills.deep_view(),
                gv == gdv[g as int],
                gv.0 == group.0@,
                gv.1 == group.1.deep_view(),
                gv.1.len() == group.1@.len(),
                out.deep_view() + stages_findings_from(gv.0, gv.1, kn, k as int)
                    + groups_findings_from(gdv, kn, g as int + 1) == groups_findings_from(
                    gdv,
                    kn,
                    0,
                ),
            decreases group.1@.len() - k,
        {
            let sname = &group.1[k].0;
            let stage = &group.1[k].1;
            let ghost sv = gv.1[k as int];
            proof {
                assert(sv == group.1@[k as int].deep_view());
                assert(sv.0 == sname@);
                assert(sv.1 == stage@);
            }
            let ghost before_af = out.deep_view();
            missing_deps_exec(&group.0, sname, &stage.after, known_skills, true, &mut out);
            proof {
                assert(opt_names(stage.after.deep_view()) == opt_names(sv.1.after));
            }
            missing_deps_exec(&group.0, sname, &stage.before, known_skills, false, &mut out);
            proof {
                assert(opt_names(stage.before.deep_view()) == opt_names(sv.1.before));
            }
            gap_deps_exec(&group.0, sname, &stage.after, &group.1, &mut out);
            proof {
                assert(out.deep_view() =~= before_af + stage_findings(gv.0, sv.0, sv.1, gv.1,
                    kn));
                assert(stages_findings_from(gv.0, gv.1, kn, k as int) == stage_findings(
                    gv.0,
                    gv.1[k as int].0,
                    gv.1[k as int].1,
                    gv.1,
                    kn,
                ) + stages_findings_from(gv.0, gv.1, kn, k as int + 1));
                assert(out.deep_view() + stages_findings_from(gv.0, gv.1, kn, k as int + 1)
                    =~= before_af + stages_findings_from(gv.0, gv.1, kn, k as int));
            }
            k = k + 1;
        }
        proof {
            assert(stages_findings_from(gv.0, gv.1, kn, gv.1.len() as int)
                =~= Seq::<FindingV>::empty());
            assert(groups_findings_from(gdv, kn, g as int) == stages_findings_from(gv.0, gv.1,
                kn, 0) + groups_findings_from(gdv, kn, g as int + 1));
            assert(out.deep_view() + Seq::<FindingV>::empty() + groups_findings_from(gdv, kn,
                g as int + 1) =~= out.deep_view() + groups_findings_from(gdv, kn, g as int + 1));
        }
        g = g + 1;
    }
    proof {
        assert(groups_findings_from(gdv, kn, g as int) =~= Seq::<FindingV>::empty());
        assert(out.deep_view() + Seq::<FindingV>::empty() =~= out.deep_view());
    }
    out
}


// ---------------------------------------------------------------------------
// The target directories a configuration implies
// ---------------------------------------------------------------------------

pub open spec fn project_dirs_from(projects: Seq<(Seq<char>, crate::config::ProjectV)>, i: int)
    -> Seq<Seq<char>>
    decreases projects.len() - i when 0 <= i
{
    if i >= projects.len() {
        Seq::empty()
    } else {
        seq![
            projects[i].0 + "/.assistant/skills"@,
            projects[i].0 + "/.opencode/skills"@,
            projects[i].0 + "/.agents/skills"@,
        ] + project_dirs_from(projects, i + 1)
    }
}

/// Every target directory the configuration implies: the global targets,
/// then the three well-known skill directories of each project.
pub open spec fn spec_target_directories(cfg: ConfigV) -> Seq<Seq<char>> {
    cfg.global_targets + project_dirs_from(cfg.projects, 0)
}

/// Lists every target directory the configuration implies.
pub fn target_directories(config: &Config) -> (r: Vec<String>)
    ensures
        r.deep_view() == spec_target_directories(config@),
{
    let ghost cfg = config@;
    let mut r = clone_names(&config.global.targets);
    let mut i: usize = 0;
    proof {
        assert(r.deep_view() + project_dirs_from(cfg.projects, 0) =~= spec_target_directories(
            cfg,
        ));
    }
    while i < config.projects.len()
        invariant
            i <= config.projects@.len(),
            cfg == config@,
            cfg.projects.len() == config.projects@.len(),
            r.deep_view() + project_dirs_from(cfg.projects, i as int) == spec_target_directories(
                cfg,
            ),
        decreases config.projects@.len() - i,
    {
        let ghost prev = r.deep_view();
        let base = &config.projects[i].0;
        proof {
            assert(cfg.projects[i as int] == config.projects@[i as int].deep_view());
            assert(base@ == cfg.projects[i as int].0);
        }
        let mut d1 = base.clone();
        push_str(&mut d1, "/.assistant/skills");
        let mut d2 = base.clone();
        push_str(&mut d2, "/.opencode/skills");
        let mut d3 = base.clone();
        push_str(&mut d3, "/.agents/skills");
        r.push(d1);
        r.push(d2);
        r.push(d3);
        proof {
            assert(r.deep_view() =~~= prev + seq![
                cfg.projects[i as int].0 + "/.assistant/skills"@,
                cfg.projects[i as int].0 + "/.opencode/skills"@,
                cfg.projects[i as int].0 + "/.agents/skills"@,
            ]);
            assert(r.deep_view() + project_dirs_from(cfg.projects, i as int + 1) =~= prev
                + project_dirs_from(cfg.projects, i as int));
        }
        i = i + 1;
    }
    proof {
        assert(project_dirs_from(cfg.projects, i as int) =~= Seq::<Seq<char>>::empty());
        assert(r.deep_view() + Seq::<Seq<char>>::empty() =~= r.deep_view());
    }
    r
}

// ---------------------------------------------------------------------------
// The full check run
// ---------------------------------------------------------------------------

/// The names of the given skills.
pub open spec fn spec_skill_names(skills: Seq<SkillV>) -> Seq<Seq<char>> {
    skills.map_values(|s: SkillV| s.name)
}

/// Everything the nine checks find, concatenated in their fixed order.
pub open spec fn spec_all_findings(
    skills: Seq<SkillV>,
    crossrefs: Seq<(Seq<char>, Seq<CrossRefV>)>,
    cfg: ConfigV,
    listings: Seq<TargetListingV>,
) -> Seq<FindingV> {
    let known = spec_skill_names(skills);
    spec_check_dangling(crossrefs, known) + spec_check_orphaned(cfg, skills)
        + spec_check_mismatch(skills) + spec_check_empty_desc(skills) + spec_check_broken(
        listings,
    ) + spec_check_unmanaged(listings) + spec_check_placeholder(skills) + spec_check_pipeline(
        skills,
        known,
    ) + spec_check_no_metadata(skills)
}

pub open spec fn spec_apply_filter(fs: Seq<FindingV>, filter: Option<Severity>) -> Seq<
    FindingV,
> {
    match filter {
        None => fs,
        Some(min) => fs.filter(min_sev_pred(min)),
    }
}

/// What a whole check run returns: the nine checks' findings ranked by
/// severity, cut at the requested threshold, then run through suppression.
pub open spec fn spec_run_checks(
    skills: Seq<SkillV>,
    crossrefs: Seq<(Seq<char>, Seq<CrossRefV>)>,
    cfg: ConfigV,
    listings: Seq<TargetListingV>,
    filter: Option<Severity>,
    verbose: bool,
) -> Seq<FindingV> {
    spec_suppress(
        spec_apply_filter(
            spec_rank_findings(spec_all_findings(skills, crossrefs, cfg, listings)),
            filter,
        ),
        cfg.ignore,
        verbose,
    )
}

/// Runs every check and assembles the report: rank by severity, filter to
/// the requested minimum, then apply the configured suppression.
pub fn run_checks(
    all_skills: &Vec<Skill>,
    crossrefs: &Vec<(String, Vec<CrossRef>)>,
    config: &Config,
    listings: &Vec<TargetListing>,
    filter_severity: Option<Severity>,
    verbose: bool,
) -> (r: Vec<Finding>)
    ensures
        r.deep_view() == spec_run_checks(
            all_skills.deep_view(),
            crossrefs.deep_view(),
            config@,
            listings.deep_view(),
            filter_severity,
            verbose,
        ),
{
    let known = crate::skill::skill_names(all_skills);
    proof {
        assert(known.deep_view() =~= spec_skill_names(all_skills.deep_view()));
    }
    let mut all = check_dangling_references(crossrefs, &known);
    let mut c2 = check_orphaned_skills(config, all_skills);
    let mut c3 = check_name_directory_mismatch(all_skills);
    let mut c4 = check_missing_frontmatter(all_skills);
    let mut c5 = check_broken_symlinks(listings);
    let mut c6 = check_unmanaged_conflicts(listings);
    let mut c7 = check_placeholder_descriptions(all_skills);
    let mut c8 = check_pipeline_integrity(all_skills, &known);
    let mut c9 = check_missing_metadata(all_skills);
    let ghost d1 = all.deep_view();
    all.append(&mut c2);
    let ghost d2 = all.deep_view();
    proof {
        assert(d2 =~~= d1 + spec_check_orphaned(config@, all_skills.deep_view()));
    }
    all.append(&mut c3);
    let ghost d3 = all.deep_view();
    proof {
        assert(d3 =~~= d2 + spec_check_mismatch(all_skills.deep_view()));
    }
    all.append(&mut c4);
    let ghost d4 = all.deep_view();
    proof {
        assert(d4 =~~= d3 + spec_check_empty_desc(all_skills.deep_view()));
    }
    all.append(&mut c5);
    let ghost d5 = all.deep_view();
    proof {
        assert(d5 =~~= d4 + spec_check_broken(listings.deep_view()));
    }
    all.append(&mut c6);
    let ghost d6 = all.deep_view();
    proof {
        assert(d6 =~~= d5 + spec_check_unmanaged(listings.deep_view()));
    }
    all.append(&mut c7);
    let ghost d7 = all.deep_view();
    proof {
        assert(d7 =~~= d6 + spec_check_placeholder(all_skills.deep_view()));
    }
    all.append(&mut c8);
    let ghost d8 = all.deep_view();
    proof {
        assert(d8 =~~= d7 + spec_check_pipeline(
            all_skills.deep_view(),
            known.deep_view(),
        ));
    }
    all.append(&mut c9);
    proof {
        assert(all.deep_view() =~~= d8 + spec_check_no_metadata(all_skills.deep_view()));
        assert(all.deep_view() =~= spec_all_findings(
            all_skills.deep_view(),
            crossrefs.deep_view(),
            config@,
            listings.deep_view(),
        ));
    }
    let ranked = rank_findings(&all);
    let cut: Vec<Finding> = match filter_severity {
        None => ranked,
        Some(min) => filter_min_severity(&ranked, min),
    };
    proof {
        assert(cut.deep_view() == spec_apply_filter(
            spec_rank_findings(
                spec_all_findings(
                    all_skills.deep_view(),
                    crossrefs.deep_view(),
                    config@,
                    listings.deep_view(),
                ),
            ),
            filter_severity,
        ));
    }
    apply_suppression(&cut, &config.check.ignore, verbose)
}

/// Law: a check run is a pure function of its inputs. Running the pipeline
/// twice on unchanged skills, references, configuration and listings yields
/// the identical finding list, and so the identical exit status.
pub proof fn lemma_run_checks_idempotent(
    skills1: Seq<SkillV>,
    crossrefs1: Seq<(Seq<char>, Seq<CrossRefV>)>,
    cfg1: ConfigV,
    listings1: Seq<TargetListingV>,
    skills2: Seq<SkillV>,
    crossrefs2: Seq<(Seq<char>, Seq<CrossRefV>)>,
    cfg2: ConfigV,
    listings2: Seq<TargetListingV>,
    filter: Option<Severity>,
    verbose: bool,
)
    requires
        skills1 == skills2,
        crossrefs1 == crossrefs2,
        cfg1 == cfg2,
        listings1 == listings2,
    ensures
        spec_run_checks(skills1, crossrefs1, cfg1, listings1, filter, verbose)
            == spec_run_checks(skills2, crossrefs2, cfg2, listings2, filter, verbose),
        crate::finding::spec_has_error(
            spec_run_checks(skills1, crossrefs1, cfg1, listings1, filter, verbose),
        ) == crate::finding::spec_has_error(
            spec_run_checks(skills2, crossrefs2, cfg2, listings2, filter, verbose),
        ),
{
}

} // verus!
