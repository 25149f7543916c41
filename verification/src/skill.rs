//! A discovered skill: its name, where it lives, and its metadata. The
//! walking of source directories happens with the callers; everything here
//! is pure bookkeeping over the values they hand in.

use vstd::prelude::*;

use crate::frontmatter::{Frontmatter, FrontmatterV};
use vstd::string::StringExecFns;

verus! {

/// A discovered skill.
#[derive(Debug, Clone)]
pub struct Skill {
    /// The skill name (from the metadata).
    pub name: String,
    /// Path of the skill directory.
    pub path: String,
    /// Path of the skill document inside that directory.
    pub skill_file: String,
    /// Parsed metadata.
    pub frontmatter: Frontmatter,
}

/// The mathematical value of a [`Skill`].
pub ghost struct SkillV {
    pub name: Seq<char>,
    pub path: Seq<char>,
    pub skill_file: Seq<char>,
    pub frontmatter: FrontmatterV,
}

impl View for Skill {
    type V = SkillV;

    open spec fn view(&self) -> SkillV {
        SkillV {
            name: self.name@,
            path: self.path@,
            skill_file: self.skill_file@,
            frontmatter: self.frontmatter@,
        }
    }
}

impl DeepView for Skill {
    type V = SkillV;

    open spec fn deep_view(&self) -> SkillV {
        self.view()
    }
}

/// Where the basename of a path starts: just after the last `/`.
pub open spec fn basename_start(p: Seq<char>) -> int
    decreases p.len(),
{
    if p.len() == 0 {
        0
    } else if p[p.len() - 1] == '/' {
        p.len() as int
    } else {
        basename_start(p.drop_last())
    }
}

/// The basename of a path: everything after the last `/`.
pub open spec fn spec_basename(p: Seq<char>) -> Seq<char> {
    p.subrange(basename_start(p), p.len() as int)
}

proof fn lemma_basename_start_char(p: Seq<char>, j: int)
    requires
        0 <= j <= p.len(),
        forall|k: int| j <= k < p.len() ==> p[k] != '/',
        j > 0 ==> p[j - 1] == '/',
    ensures
        basename_start(p) == j,
    decreases p.len(),
{
    if p.len() > 0 && p[p.len() - 1] != '/' {
        assert(j < p.len() || j == p.len());
        if j == p.len() {
            assert(p[j - 1] == '/' || j == 0);
            assert(p[p.len() - 1] != '/');
            assert(j == 0 ==> p.len() == 0);
            assert(false);
        }
        lemma_basename_start_char(p.drop_last(), j);
    }
}

/// The basename of a path string.
pub fn basename(p: &str) -> (r: String)
    ensures
        r@ == spec_basename(p@),
{
    let pv = crate::text::chars_vec(p);
    let n = pv.len();
    let mut j: usize = n;
    while j > 0 && pv[j - 1] != '/'
        invariant
            j <= n,
            n == pv@.len(),
            pv@ == p@,
            forall|k: int| j <= k < n ==> pv@[k] != '/',
        decreases j,
    {
        j = j - 1;
    }
    proof {
        lemma_basename_start_char(p@, j as int);
    }
    crate::text::chars_to_string(&pv, j, n)
}

/// The names of the given skills, in order.
pub fn skill_names(skills: &Vec<Skill>) -> (r: Vec<String>)
    ensures
        r.deep_view().len() == skills.deep_view().len(),
        forall|i: int|
            0 <= i < r.deep_view().len() ==> #[trigger] r.deep_view()[i]
                == skills.deep_view()[i].name,
{
    let mut r: Vec<String> = Vec::new();
    let mut i: usize = 0;
    while i < skills.len()
        invariant
            i <= skills@.len(),
            r@.len() == i,
            forall|m: int|
                0 <= m < i as int ==> #[trigger] r.deep_view()[m] == skills.deep_view()[m].name,
        decreases skills@.len() - i,
    {
        let ghost prev = r.deep_view();
        let nm = skills[i].name.clone();
        proof {
            assert(nm@ == skills.deep_view()[i as int].name);
        }
        r.push(nm);
        proof {
            assert(r.deep_view() =~~= prev.push(skills.deep_view()[i as int].name));
        }
        i = i + 1;
    }
    r
}

/// Pairs each skill with its name, keeping the order of the input. Callers
/// that look a name up take the pair whose first component matches.
pub fn build_skill_map(skills: Vec<Skill>) -> (r: Vec<(String, Skill)>)
    ensures
        r@.len() == skills@.len(),
        forall|i: int|
            0 <= i < r@.len() ==> (#[trigger] r.deep_view()[i]).0 == skills.deep_view()[i].name
                && r.deep_view()[i].1 == skills.deep_view()[i],
{
    let ghost orig = skills.deep_view();
    let mut rest = skills;
    let mut r: Vec<(String, Skill)> = Vec::new();
    while rest.len() > 0
        invariant
            r@.len() + rest@.len() == orig.len(),
            rest.deep_view() =~= orig.skip(r@.len() as int),
            forall|i: int|
                0 <= i < r@.len() ==> (#[trigger] r.deep_view()[i]).0 == orig[i].name
                    && r.deep_view()[i].1 == orig[i],
        decreases rest@.len(),
    {
        let ghost k = r@.len() as int;
        let s = rest.remove(0);
        proof {
            assert(s@ == orig.skip(k)[0]);
            assert(orig.skip(k)[0] == orig[k]);
            assert(rest.deep_view() =~= orig.skip(k).subrange(1, orig.skip(k).len() as int));
            assert(orig.skip(k).subrange(1, orig.skip(k).len() as int) =~= orig.skip(k + 1));
        }
        let name = s.name.clone();
        let ghost prev = r.deep_view();
        r.push((name, s));
        proof {
            assert(r.deep_view() =~~= prev.push((orig[k].name, orig[k])));
            assert((r.deep_view()[k]).0 == orig[k].name);
            assert(r.deep_view()[k].1 == orig[k]);
        }
    }
    r
}


/// The slug rule for new skill names: the shape first, then the length.
pub open spec fn spec_validate_skill_name(name: Seq<char>) -> Result<
    (),
    crate::frontmatter::FrontmatterErrorV,
> {
    if !crate::crossref::slug_ok(name) {
        Err(crate::frontmatter::FrontmatterErrorV::InvalidNamePattern(name))
    } else if name.len() == 0 || name.len() > 64 {
        Err(crate::frontmatter::FrontmatterErrorV::InvalidNameLength(name.len() as int))
    } else {
        Ok(())
    }
}

/// Checks a proposed skill name: slug shape, then 1 through 64 characters.
pub fn validate_skill_name(name: &str) -> (r: Result<(), crate::frontmatter::FrontmatterError>)
    ensures
        match r {
            Ok(_) => spec_validate_skill_name(name@) is Ok,
            Err(e) => spec_validate_skill_name(name@) == Err::<
                (),
                crate::frontmatter::FrontmatterErrorV,
            >(e@),
        },
{
    let cv = crate::text::chars_vec(name);
    let ok = crate::crossref::check_slug_range(&cv, 0, cv.len());
    proof {
        assert(cv@.subrange(0, cv@.len() as int) =~= name@);
    }
    if !ok {
        return Err(
            crate::frontmatter::FrontmatterError::InvalidNamePattern(String::from_str(name)),
        );
    }
    if cv.len() == 0 || cv.len() > 64 {
        return Err(crate::frontmatter::FrontmatterError::InvalidNameLength(cv.len()));
    }
    Ok(())
}

/// What validating one discovered skill means: the metadata rules hold and
/// the declared name matches the directory's basename.
pub open spec fn spec_validate_skill(s: SkillV) -> Result<
    (),
    crate::frontmatter::FrontmatterErrorV,
> {
    match crate::frontmatter::spec_validate(s.frontmatter) {
        Err(e) => Err(e),
        Ok(_) => {
            if s.frontmatter.name == spec_basename(s.path) {
                Ok(())
            } else {
                Err(
                    crate::frontmatter::FrontmatterErrorV::NameMismatch {
                        expected: spec_basename(s.path),
                        found: s.frontmatter.name,
                    },
                )
            }
        },
    }
}

/// Validates one discovered skill: its metadata rules, then the match
/// between declared name and directory name.
pub fn validate_skill(skill: &Skill) -> (r: Result<(), crate::frontmatter::FrontmatterError>)
    ensures
        match r {
            Ok(_) => spec_validate_skill(skill@) is Ok,
            Err(e) => spec_validate_skill(skill@) == Err::<
                (),
                crate::frontmatter::FrontmatterErrorV,
            >(e@),
        },
{
    match skill.frontmatter.validate() {
        Err(e) => Err(e),
        Ok(_) => {
            let dir = basename(skill.path.as_str());
            skill.frontmatter.validate_directory_name(dir.as_str())
        },
    }
}
} // verus!
