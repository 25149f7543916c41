//! The pipeline overview: which pipelines the skills declare, their members
//! and stage groups, the dependency names that point outside the pipeline,
//! and the members that belong to more than one pipeline. Pipelines are
//! listed by name, members by stage label and order key, stage groups by
//! label.

use vstd::prelude::*;

use crate::checks::{build_pipeline_groups, spec_group_pipelines};
use crate::frontmatter::{PipelineStage, PipelineStageV};
use crate::graph::push_unique;
use crate::skill::{Skill, SkillV};
use crate::text::{lex_le, str_eq, string_le, vec_contains_string};

verus! {

/// One stage of a pipeline and the skills declared for it.
#[derive(Debug, Clone)]
pub struct StageInfo {
    pub name: String,
    pub skills: Vec<String>,
}

/// The mathematical value of a [`StageInfo`].
pub ghost struct StageInfoV {
    pub name: Seq<char>,
    pub skills: Seq<Seq<char>>,
}

impl View for StageInfo {
    type V = StageInfoV;

    open spec fn view(&self) -> StageInfoV {
        StageInfoV { name: self.name@, skills: self.skills.deep_view() }
    }
}

impl DeepView for StageInfo {
    type V = StageInfoV;

    open spec fn deep_view(&self) -> StageInfoV {
        self.view()
    }
}

/// One detected pipeline.
#[derive(Debug, Clone)]
pub struct PipelineInfo {
    /// The pipeline's name.
    pub name: String,
    /// Its stages, each with its member skills.
    pub stages: Vec<StageInfo>,
    /// Every member skill, sorted by stage label and order key.
    pub skills: Vec<String>,
    /// Names referenced in `after` or `before` that are not members.
    pub gaps: Vec<String>,
    /// Members that also belong to another pipeline.
    pub cross_pipeline: Vec<String>,
}

/// The mathematical value of a [`PipelineInfo`].
pub ghost struct PipelineInfoV {
    pub name: Seq<char>,
    pub stages: Seq<StageInfoV>,
    pub skills: Seq<Seq<char>>,
    pub gaps: Seq<Seq<char>>,
    pub cross_pipeline: Seq<Seq<char>>,
}

impl View for PipelineInfo {
    type V = PipelineInfoV;

    open spec fn view(&self) -> PipelineInfoV {
        PipelineInfoV {
            name: self.name@,
            stages: self.stages.deep_view(),
            skills: self.skills.deep_view(),
            gaps: self.gaps.deep_view(),
            cross_pipeline: self.cross_pipeline.deep_view(),
        }
    }
}

impl DeepView for PipelineInfo {
    type V = PipelineInfoV;

    open spec fn deep_view(&self) -> PipelineInfoV {
        self.view()
    }
}

// ---------------------------------------------------------------------------
// The pieces of one pipeline's overview
// ---------------------------------------------------------------------------

/// The member names, in entry order.
pub open spec fn member_names(stages: Seq<(Seq<char>, PipelineStageV)>, j: int) -> Seq<Seq<char>>
    decreases stages.len() - j when 0 <= j
{
    if j >= stages.len() {
        Seq::empty()
    } else {
        seq![stages[j].0] + member_names(stages, j + 1)
    }
}

pub open spec fn find_stage_group(gs: Seq<(Seq<char>, Seq<Seq<char>>)>, label: Seq<char>, i: int)
    -> int
    decreases gs.len() - i when 0 <= i
{
    if i >= gs.len() {
        -1
    } else if gs[i].0 == label {
        i
    } else {
        find_stage_group(gs, label, i + 1)
    }
}

/// Adds one member under its stage label, opening a new group at the end
/// for a label not seen before.
pub open spec fn upsert_stage(
    gs: Seq<(Seq<char>, Seq<Seq<char>>)>,
    label: Seq<char>,
    sname: Seq<char>,
) -> Seq<(Seq<char>, Seq<Seq<char>>)> {
    let i = find_stage_group(gs, label, 0);
    if i < 0 {
        gs.push((label, seq![sname]))
    } else {
        gs.update(i, (gs[i].0, gs[i].1.push(sname)))
    }
}

pub open spec fn group_stages(
    stages: Seq<(Seq<char>, PipelineStageV)>,
    j: int,
    acc: Seq<(Seq<char>, Seq<Seq<char>>)>,
) -> Seq<(Seq<char>, Seq<Seq<char>>)>
    decreases stages.len() - j when 0 <= j
{
    if j >= stages.len() {
        acc
    } else {
        group_stages(stages, j + 1, upsert_stage(acc, stages[j].1.stage, stages[j].0))
    }
}

pub open spec fn stage_infos_of(gs: Seq<(Seq<char>, Seq<Seq<char>>)>) -> Seq<StageInfoV> {
    gs.map_values(|g: (Seq<char>, Seq<Seq<char>>)| StageInfoV { name: g.0, skills: g.1 })
}

/// Collects dependency names that are not members, each once.
pub open spec fn add_gap_list(
    deps: Seq<Seq<char>>,
    members: Seq<Seq<char>>,
    acc: Seq<Seq<char>>,
    k: int,
) -> Seq<Seq<char>>
    decreases deps.len() - k when 0 <= k
{
    if k >= deps.len() {
        acc
    } else {
        add_gap_list(
            deps,
            members,
            if members.contains(deps[k]) {
                acc
            } else {
                push_unique(acc, deps[k])
            },
            k + 1,
        )
    }
}

pub open spec fn gaps_from(
    stages: Seq<(Seq<char>, PipelineStageV)>,
    members: Seq<Seq<char>>,
    j: int,
    acc: Seq<Seq<char>>,
) -> Seq<Seq<char>>
    decreases stages.len() - j when 0 <= j
{
    if j >= stages.len() {
        acc
    } else {
        gaps_from(
            stages,
            members,
            j + 1,
            add_gap_list(
                crate::checks::opt_names(stages[j].1.before),
                members,
                add_gap_list(crate::checks::opt_names(stages[j].1.after), members, acc, 0),
                0,
            ),
        )
    }
}

pub open spec fn find_skill(skills: Seq<SkillV>, name: Seq<char>, i: int) -> int
    decreases skills.len() - i when 0 <= i
{
    if i >= skills.len() {
        -1
    } else if skills[i].name == name {
        i
    } else {
        find_skill(skills, name, i + 1)
    }
}

/// How many pipelines the named skill belongs to (by its first entry in
/// the skill list).
pub open spec fn pipeline_count_of(skills: Seq<SkillV>, name: Seq<char>) -> int {
    let f = find_skill(skills, name, 0);
    if f < 0 {
        0
    } else {
        match skills[f].frontmatter.pipeline {
            Some(pl) => pl.len() as int,
            None => 0,
        }
    }
}

/// The members that also belong to another pipeline.
pub open spec fn cross_from(
    stages: Seq<(Seq<char>, PipelineStageV)>,
    skills: Seq<SkillV>,
    j: int,
) -> Seq<Seq<char>>
    decreases stages.len() - j when 0 <= j
{
    if j >= stages.len() {
        Seq::empty()
    } else {
        (if pipeline_count_of(skills, stages[j].0) > 1 {
            seq![stages[j].0]
        } else {
            Seq::empty()
        }) + cross_from(stages, skills, j + 1)
    }
}

/// The overview of one pipeline group, its declarations sorted by stage
/// label and order key. Grouping the sorted declarations yields the stage
/// groups in label order.
pub open spec fn pipeline_info_of(
    skills: Seq<SkillV>,
    group: (Seq<char>, Seq<(Seq<char>, PipelineStageV)>),
) -> PipelineInfoV {
    let entries = sort_entries(group.1);
    PipelineInfoV {
        name: group.0,
        stages: stage_infos_of(group_stages(entries, 0, Seq::empty())),
        skills: member_names(entries, 0),
        gaps: gaps_from(entries, member_names(entries, 0), 0, Seq::empty()),
        cross_pipeline: cross_from(entries, skills, 0),
    }
}

/// What the pipeline overview yields: one entry per declared pipeline,
/// sorted by pipeline name.
pub open spec fn spec_extract_pipelines(skills: Seq<SkillV>) -> Seq<PipelineInfoV> {
    sort_groups(spec_group_pipelines(skills)).map_values(
        |g: (Seq<char>, Seq<(Seq<char>, PipelineStageV)>)| pipeline_info_of(skills, g),
    )
}

// ---------------------------------------------------------------------------
// Ordering
// ---------------------------------------------------------------------------

/// Order of one pipeline's declarations: by stage label, then by order key.
/// Equal keys keep declaration order.
pub open spec fn entry_le(a: (Seq<char>, PipelineStageV), b: (Seq<char>, PipelineStageV)) -> bool {
    if a.1.stage != b.1.stage {
        lex_le(a.1.stage, b.1.stage)
    } else {
        a.1.order <= b.1.order
    }
}

/// Inserts a declaration behind every entry that is at most equal to it.
pub open spec fn insert_entry_sorted(
    s: Seq<(Seq<char>, PipelineStageV)>,
    x: (Seq<char>, PipelineStageV),
) -> Seq<(Seq<char>, PipelineStageV)>
    decreases s.len(),
{
    if s.len() == 0 {
        seq![x]
    } else if entry_le(s[0], x) {
        seq![s[0]] + insert_entry_sorted(s.drop_first(), x)
    } else {
        seq![x] + s
    }
}

/// One pipeline's declarations, stably sorted by (stage label, order key).
pub open spec fn sort_entries(s: Seq<(Seq<char>, PipelineStageV)>) -> Seq<
    (Seq<char>, PipelineStageV),
>
    decreases s.len(),
{
    if s.len() == 0 {
        Seq::empty()
    } else {
        insert_entry_sorted(sort_entries(s.drop_last()), s.last())
    }
}

proof fn lemma_insert_entry_char(
    s: Seq<(Seq<char>, PipelineStageV)>,
    x: (Seq<char>, PipelineStageV),
    p: int,
)
    requires
        0 <= p <= s.len(),
        forall|k: int| 0 <= k < p ==> entry_le(#[trigger] s[k], x),
        p < s.len() ==> !entry_le(s[p], x),
    ensures
        insert_entry_sorted(s, x) =~= s.take(p) + seq![x] + s.skip(p),
    decreases s.len(),
{
    if s.len() == 0 {
    } else if p == 0 {
        assert(insert_entry_sorted(s, x) =~= seq![x] + s);
    } else {
        let t = s.drop_first();
        assert forall|k: int| 0 <= k < p - 1 implies entry_le(#[trigger] t[k], x) by {
            assert(t[k] == s[k + 1]);
        }
        if p - 1 < t.len() {
            assert(t[p - 1] == s[p]);
        }
        lemma_insert_entry_char(t, x, p - 1);
        assert(insert_entry_sorted(s, x) =~= seq![s[0]] + insert_entry_sorted(t, x));
        assert(seq![s[0]] + (t.take(p - 1) + seq![x] + t.skip(p - 1)) =~= s.take(p) + seq![x]
            + s.skip(p));
    }
}

/// Order of whole pipelines: by name.
pub open spec fn group_le(
    a: (Seq<char>, Seq<(Seq<char>, PipelineStageV)>),
    b: (Seq<char>, Seq<(Seq<char>, PipelineStageV)>),
) -> bool {
    lex_le(a.0, b.0)
}

pub open spec fn insert_group_sorted(
    s: Seq<(Seq<char>, Seq<(Seq<char>, PipelineStageV)>)>,
    x: (Seq<char>, Seq<(Seq<char>, PipelineStageV)>),
) -> Seq<(Seq<char>, Seq<(Seq<char>, PipelineStageV)>)>
    decreases s.len(),
{
    if s.len() == 0 {
        seq![x]
    } else if group_le(s[0], x) {
        seq![s[0]] + insert_group_sorted(s.drop_first(), x)
    } else {
        seq![x] + s
    }
}

/// The pipeline groups, sorted by name.
pub open spec fn sort_groups(s: Seq<(Seq<char>, Seq<(Seq<char>, PipelineStageV)>)>) -> Seq<
    (Seq<char>, Seq<(Seq<char>, PipelineStageV)>),
>
    decreases s.len(),
{
    if s.len() == 0 {
        Seq::empty()
    } else {
        insert_group_sorted(sort_groups(s.drop_last()), s.last())
    }
}

proof fn lemma_insert_group_char(
    s: Seq<(Seq<char>, Seq<(Seq<char>, PipelineStageV)>)>,
    x: (Seq<char>, Seq<(Seq<char>, PipelineStageV)>),
    p: int,
)
    requires
        0 <= p <= s.len(),
        forall|k: int| 0 <= k < p ==> group_le(#[trigger] s[k], x),
        p < s.len() ==> !group_le(s[p], x),
    ensures
        insert_group_sorted(s, x) =~= s.take(p) + seq![x] + s.skip(p),
    decreases s.len(),
{
    if s.len() == 0 {
    } else if p == 0 {
        assert(insert_group_sorted(s, x) =~= seq![x] + s);
    } else {
        let t = s.drop_first();
        assert forall|k: int| 0 <= k < p - 1 implies group_le(#[trigger] t[k], x) by {
            assert(t[k] == s[k + 1]);
        }
        if p - 1 < t.len() {
            assert(t[p - 1] == s[p]);
        }
        lemma_insert_group_char(t, x, p - 1);
        assert(insert_group_sorted(s, x) =~= seq![s[0]] + insert_group_sorted(t, x));
        assert(seq![s[0]] + (t.take(p - 1) + seq![x] + t.skip(p - 1)) =~= s.take(p) + seq![x]
            + s.skip(p));
    }
}

// ---------------------------------------------------------------------------
// Exec
// ---------------------------------------------------------------------------

proof fn lemma_find_stage_group_char(
    gs: Seq<(Seq<char>, Seq<Seq<char>>)>,
    label: Seq<char>,
    i: int,
    j: int,
)
    requires
        0 <= i <= j <= gs.len(),
        forall|m: int| i <= m < j ==> (#[trigger] gs[m]).0 != label,
        j < gs.len() ==> gs[j].0 == label,
    ensures
        find_stage_group(gs, label, i) == if j < gs.len() {
            j
        } else {
            -1
        },
    decreases j - i,
{
    if i < j {
        lemma_find_stage_group_char(gs, label, i + 1, j);
    }
}

proof fn lemma_find_skill_char(skills: Seq<SkillV>, name: Seq<char>, i: int, j: int)
    requires
        0 <= i <= j <= skills.len(),
        forall|m: int| i <= m < j ==> (#[trigger] skills[m]).name != name,
        j < skills.len() ==> skills[j].name == name,
    ensures
        find_skill(skills, name, i) == if j < skills.len() {
            j
        } else {
            -1
        },
    decreases j - i,
{
    if i < j {
        lemma_find_skill_char(skills, name, i + 1, j);
    }
}

fn entry_le_exec(a: &(String, PipelineStage), b: &(String, PipelineStage)) -> (r: bool)
    ensures
        r == entry_le(a.deep_view(), b.deep_view()),
{
    if str_eq(a.1.stage.as_str(), b.1.stage.as_str()) {
        a.1.order <= b.1.order
    } else {
        string_le(&a.1.stage, &b.1.stage)
    }
}

/// Stable insertion sort of one pipeline's declarations by (stage label,
/// order key).
fn sort_entries_exec(v: &mut Vec<(String, PipelineStage)>)
    ensures
        final(v).deep_view() == sort_entries(old(v).deep_view()),
{
    let ghost orig = v.deep_view();
    let mut i: usize = 0;
    proof {
        assert(orig.take(0) =~= Seq::<(Seq<char>, PipelineStageV)>::empty());
        assert(v.deep_view() =~= sort_entries(orig.take(0)) + orig.skip(0));
    }
    while i < v.len()
        invariant
            i <= v@.len(),
            v@.len() == orig.len(),
            v.deep_view() == sort_entries(orig.take(i as int)) + orig.skip(i as int),
        decreases v@.len() - i,
    {
        let ghost sorted_pre = sort_entries(orig.take(i as int));
        proof {
            assert(v.deep_view().len() == sorted_pre.len() + orig.len() - i);
            assert(sorted_pre.len() == i);
            assert(v.deep_view()[i as int] == orig.skip(i as int)[0]);
        }
        let ghost pre_deep = v.deep_view();
        let x = v.remove(i);
        proof {
            assert(x.deep_view() == orig[i as int]);
            assert(v.deep_view() =~~= pre_deep.remove(i as int));
            assert(pre_deep.remove(i as int) =~= sorted_pre + orig.skip(i as int + 1));
        }
        let mut p: usize = 0;
        while p < i && entry_le_exec(&v[p], &x)
            invariant
                p <= i,
                i < orig.len(),
                v@.len() + 1 == orig.len(),
                sorted_pre.len() == i,
                v.deep_view() == sorted_pre + orig.skip(i as int + 1),
                x.deep_view() == orig[i as int],
                forall|k: int| 0 <= k < p ==> entry_le(#[trigger] sorted_pre[k], orig[i as int]),
            decreases i - p,
        {
            proof {
                assert(v@[p as int].deep_view() == v.deep_view()[p as int]);
                assert(v.deep_view()[p as int] == sorted_pre[p as int]);
            }
            p = p + 1;
        }
        proof {
            if p < i {
                assert(v@[p as int].deep_view() == v.deep_view()[p as int]);
                assert(v.deep_view()[p as int] == sorted_pre[p as int]);
            }
            lemma_insert_entry_char(sorted_pre, orig[i as int], p as int);
        }
        v.insert(p, x);
        proof {
            assert(v.deep_view() =~~= (sorted_pre + orig.skip(i as int + 1)).insert(
                p as int,
                orig[i as int],
            ));
            assert((sorted_pre + orig.skip(i as int + 1)).insert(p as int, orig[i as int])
                =~= (sorted_pre.take(p as int) + seq![orig[i as int]] + sorted_pre.skip(p as int))
                + orig.skip(i as int + 1));
            assert(v.deep_view() =~= insert_entry_sorted(sorted_pre, orig[i as int]) + orig.skip(
                i as int + 1,
            ));
            assert(orig.take(i as int + 1).drop_last() =~= orig.take(i as int));
            assert(orig.take(i as int + 1).last() == orig[i as int]);
            assert(sort_entries(orig.take(i as int + 1)) == insert_entry_sorted(
                sorted_pre,
                orig[i as int],
            ));
        }
        i = i + 1;
    }
    proof {
        assert(orig.take(orig.len() as int) =~= orig);
        assert(orig.skip(orig.len() as int)
            =~= Seq::<(Seq<char>, PipelineStageV)>::empty());
        assert(v.deep_view() =~= sort_entries(orig));
    }
}

/// Insertion sort of the pipeline groups by name.
fn sort_groups_exec(v: &mut Vec<(String, Vec<(String, PipelineStage)>)>)
    ensures
        final(v).deep_view() == sort_groups(old(v).deep_view()),
{
    let ghost orig = v.deep_view();
    let mut i: usize = 0;
    proof {
        assert(orig.take(0)
            =~= Seq::<(Seq<char>, Seq<(Seq<char>, PipelineStageV)>)>::empty());
        assert(v.deep_view() =~= sort_groups(orig.take(0)) + orig.skip(0));
    }
    while i < v.len()
        invariant
            i <= v@.len(),
            v@.len() == orig.len(),
            v.deep_view() == sort_groups(orig.take(i as int)) + orig.skip(i as int),
        decreases v@.len() - i,
    {
        let ghost sorted_pre = sort_groups(orig.take(i as int));
        proof {
            assert(v.deep_view().len() == sorted_pre.len() + orig.len() - i);
            assert(sorted_pre.len() == i);
            assert(v.deep_view()[i as int] == orig.skip(i as int)[0]);
        }
        let ghost pre_deep = v.deep_view();
        let x = v.remove(i);
        proof {
            assert(x.deep_view() == orig[i as int]);
            assert(v.deep_view() =~~= pre_deep.remove(i as int));
            assert(pre_deep.remove(i as int) =~= sorted_pre + orig.skip(i as int + 1));
        }
        let mut p: usize = 0;
        while p < i && string_le(&v[p].0, &x.0)
            invariant
                p <= i,
                i < orig.len(),
                v@.len() + 1 == orig.len(),
                sorted_pre.len() == i,
                v.deep_view() == sorted_pre + orig.skip(i as int + 1),
                x.deep_view() == orig[i as int],
                forall|k: int| 0 <= k < p ==> group_le(#[trigger] sorted_pre[k], orig[i as int]),
            decreases i - p,
        {
            proof {
                assert(v@[p as int].deep_view() == v.deep_view()[p as int]);
                assert(v.deep_view()[p as int] == sorted_pre[p as int]);
            }
            p = p + 1;
        }
        proof {
            if p < i {
                assert(v@[p as int].deep_view() == v.deep_view()[p as int]);
                assert(v.deep_view()[p as int] == sorted_pre[p as int]);
            }
            lemma_insert_group_char(sorted_pre, orig[i as int], p as int);
        }
        v.insert(p, x);
        proof {
            assert(v.deep_view() =~~= (sorted_pre + orig.skip(i as int + 1)).insert(
                p as int,
                orig[i as int],
            ));
            assert((sorted_pre + orig.skip(i as int + 1)).insert(p as int, orig[i as int])
                =~= (sorted_pre.take(p as int) + seq![orig[i as int]] + sorted_pre.skip(p as int))
                + orig.skip(i as int + 1));
            assert(v.deep_view() =~= insert_group_sorted(sorted_pre, orig[i as int]) + orig.skip(
                i as int + 1,
            ));
            assert(orig.take(i as int + 1).drop_last() =~= orig.take(i as int));
            assert(orig.take(i as int + 1).last() == orig[i as int]);
            assert(sort_groups(orig.take(i as int + 1)) == insert_group_sorted(
                sorted_pre,
                orig[i as int],
            ));
        }
        i = i + 1;
    }
    proof {
        assert(orig.take(orig.len() as int) =~= orig);
        assert(orig.skip(orig.len() as int)
            =~= Seq::<(Seq<char>, Seq<(Seq<char>, PipelineStageV)>)>::empty());
        assert(v.deep_view() =~= sort_groups(orig));
    }
}

/// A deep copy of one pipeline's declarations.
fn clone_entries(v: &Vec<(String, PipelineStage)>) -> (r: Vec<(String, PipelineStage)>)
    ensures
        r.deep_view() == v.deep_view(),
{
    let mut r: Vec<(String, PipelineStage)> = Vec::new();
    let mut i: usize = 0;
    while i < v.len()
        invariant
            i <= v@.len(),
            r.deep_view() =~= v.deep_view().take(i as int),
        decreases v@.len() - i,
    {
        let ghost prev = r.deep_view();
        let e = (v[i].0.clone(), crate::checks::clone_stage(&v[i].1));
        proof {
            assert(e.deep_view() == v.deep_view()[i as int]);
        }
        r.push(e);
        proof {
            assert(r.deep_view() =~~= prev.push(v.deep_view()[i as int]));
            assert(r.deep_view() =~= v.deep_view().take(i as int + 1));
        }
        i = i + 1;
    }
    proof {
        assert(v.deep_view().take(v.deep_view().len() as int) =~= v.deep_view());
    }
    r
}

/// Adds one dependency list's out-of-pipeline names to the gaps.
fn add_gaps_exec(
    deps: &Option<Vec<String>>,
    members: &Vec<String>,
    gaps: &mut Vec<String>,
)
    ensures
        final(gaps).deep_view() == add_gap_list(
            crate::checks::opt_names(deps.deep_view()),
            members.deep_view(),
            old(gaps).deep_view(),
            0,
        ),
{
    let ghost mdv = members.deep_view();
    match deps {
        None => {
            proof {
                assert(add_gap_list(
                    crate::checks::opt_names(deps.deep_view()),
                    mdv,
                    gaps.deep_view(),
                    0,
                ) == gaps.deep_view());
            }
        },
        Some(list) => {
            let ghost dl = deps.deep_view()->Some_0;
            proof {
                assert(dl == list.deep_view());
            }
            let ghost base = gaps.deep_view();
            let mut k: usize = 0;
            while k < list.len()
                invariant
                    k <= list@.len(),
                    mdv == members.deep_view(),
                    dl == list.deep_view(),
                    dl.len() == list@.len(),
                    add_gap_list(dl, mdv, gaps.deep_view(), k as int) == add_gap_list(
                        dl,
                        mdv,
                        base,
                        0,
                    ),
                decreases list@.len() - k,
            {
                let dep = &list[k];
                let ghost d = dl[k as int];
                proof {
                    assert(d == list@[k as int]@);
                }
                let ghost prev = gaps.deep_view();
                if !vec_contains_string(members, dep.as_str()) {
                    if !vec_contains_string(gaps, dep.as_str()) {
                        gaps.push(dep.clone());
                        proof {
                            assert(gaps.deep_view() =~~= prev.push(d));
                            assert(gaps.deep_view() == push_unique(prev, d));
                        }
                    } else {
                        proof {
                            assert(gaps.deep_view() == push_unique(prev, d));
                        }
                    }
                }
                proof {
                    assert(add_gap_list(dl, mdv, gaps.deep_view(), k as int + 1) == add_gap_list(
                        dl,
                        mdv,
                        prev,
                        k as int,
                    ));
                }
                k = k + 1;
            }
            proof {
                assert(add_gap_list(dl, mdv, gaps.deep_view(), dl.len() as int)
                    == gaps.deep_view());
                assert(crate::checks::opt_names(deps.deep_view()) == dl);
            }
        },
    }
}

/// Builds the pipeline overview for every declared pipeline, in
/// first-occurrence order.
pub fn extract_pipelines(skills: &Vec<Skill>) -> (r: Vec<PipelineInfo>)
    ensures
        r.deep_view() == spec_extract_pipelines(skills.deep_view()),
{
    let ghost sdv = skills.deep_view();
    let mut groups = build_pipeline_groups(skills);
    sort_groups_exec(&mut groups);
    let ghost gdv = groups.deep_view();
    let mut r: Vec<PipelineInfo> = Vec::new();
    let mut g: usize = 0;
    proof {
        assert(r.deep_view() =~= spec_extract_pipelines(sdv).take(0));
    }
    while g < groups.len()
        invariant
            g <= groups@.len(),
            sdv == skills.deep_view(),
            gdv == groups.deep_view(),
            gdv.len() == groups@.len(),
            gdv == sort_groups(spec_group_pipelines(sdv)),
            r.deep_view() == spec_extract_pipelines(sdv).take(g as int),
        decreases groups@.len() - g,
    {
        let group = &groups[g];
        let ghost gv = gdv[g as int];
        proof {
            assert(gv == groups@[g as int].deep_view());
            assert(gv.0 == group.0@);
            assert(gv.1 == group.1.deep_view());
        }
        // the declarations, sorted by stage label and order key
        let mut entries = clone_entries(&group.1);
        sort_entries_exec(&mut entries);
        let ghost ev = sort_entries(gv.1);
        proof {
            assert(entries.deep_view() == ev);
        }
        // member names, in sorted order
        let mut members: Vec<String> = Vec::new();
        let mut j: usize = 0;
        proof {
            assert(members.deep_view() + member_names(ev, 0) =~= member_names(ev, 0));
        }
        while j < entries.len()
            invariant
                j <= entries@.len(),
                ev == entries.deep_view(),
                ev.len() == entries@.len(),
                members.deep_view() + member_names(ev, j as int) == member_names(ev, 0),
            decreases entries@.len() - j,
        {
            let ghost prev = members.deep_view();
            members.push(entries[j].0.clone());
            proof {
                assert(ev[j as int] == entries@[j as int].deep_view());
                assert(members.deep_view() =~~= prev.push(ev[j as int].0));
                assert(members.deep_view() + member_names(ev, j as int + 1) =~= prev
                    + member_names(ev, j as int));
            }
            j = j + 1;
        }
        proof {
            assert(member_names(ev, ev.len() as int) =~= Seq::<Seq<char>>::empty());
            assert(members.deep_view() + Seq::<Seq<char>>::empty() =~= members.deep_view());
        }
        // stage groups in first-occurrence order
        let mut sgroups: Vec<(String, Vec<String>)> = Vec::new();
        let mut k: usize = 0;
        proof {
            assert(sgroups.deep_view()
                =~= Seq::<(Seq<char>, Seq<Seq<char>>)>::empty());
        }
        while k < entries.len()
            invariant
                k <= entries@.len(),
                ev == entries.deep_view(),
                ev.len() == entries@.len(),
                group_stages(ev, k as int, sgroups.deep_view()) == group_stages(
                    ev,
                    0,
                    Seq::empty(),
                ),
            decreases entries@.len() - k,
        {
            let sname = &entries[k].0;
            let label = &entries[k].1.stage;
            let ghost sv = ev[k as int];
            proof {
                assert(sv == entries@[k as int].deep_view());
                assert(sv.0 == sname@);
                assert(sv.1.stage == label@);
            }
            let ghost sgv = sgroups.deep_view();
            let n = sgroups.len();
            let mut f: usize = 0;
            while f < n && !str_eq(sgroups[f].0.as_str(), label.as_str())
                invariant
                    f <= n,
                    n == sgroups@.len(),
                    sgv == sgroups.deep_view(),
                    sgv.len() == sgroups@.len(),
                    sv.1.stage == label@,
                    forall|m: int| 0 <= m < f ==> (#[trigger] sgv[m]).0 != label@,
                decreases n - f,
            {
                proof {
                    assert(sgv[f as int] == sgroups@[f as int].deep_view());
                }
                f = f + 1;
            }
            proof {
                if f < n {
                    assert(sgv[f as int] == sgroups@[f as int].deep_view());
                }
                lemma_find_stage_group_char(sgv, label@, 0, f as int);
            }
            let ghost prevs = sgroups.deep_view();
            if f < n {
                let mut pair = sgroups.remove(f);
                pair.1.push(sname.clone());
                sgroups.insert(f, pair);
                proof {
                    assert(sgroups.deep_view() =~~= prevs.update(
                        f as int,
                        (prevs[f as int].0, prevs[f as int].1.push(sv.0)),
                    ));
                    assert(sgroups.deep_view() == upsert_stage(prevs, sv.1.stage, sv.0));
                }
            } else {
                let mut one: Vec<String> = Vec::new();
                one.push(sname.clone());
                sgroups.push((label.clone(), one));
                proof {
                    assert(sgroups.deep_view() =~~= prevs.push((sv.1.stage, seq![sv.0])));
                    assert(sgroups.deep_view() == upsert_stage(prevs, sv.1.stage, sv.0));
                }
            }
            proof {
                assert(group_stages(ev, k as int, prevs) == group_stages(
                    ev,
                    k as int + 1,
                    upsert_stage(prevs, ev[k as int].1.stage, ev[k as int].0),
                ));
            }
            k = k + 1;
        }
        proof {
            assert(group_stages(ev, ev.len() as int, sgroups.deep_view())
                == sgroups.deep_view());
        }
        // the stage groups as StageInfo values
        let mut stages: Vec<StageInfo> = Vec::new();
        let mut t: usize = 0;
        let ghost sgfinal = sgroups.deep_view();
        proof {
            assert(stages.deep_view() =~= stage_infos_of(sgfinal).take(0));
        }
        while t < sgroups.len()
            invariant
                t <= sgroups@.len(),
                sgfinal == sgroups.deep_view(),
                sgfinal.len() == sgroups@.len(),
                stages.deep_view() == stage_infos_of(sgfinal).take(t as int),
            decreases sgroups@.len() - t,
        {
            let ghost prev = stages.deep_view();
            let pair = &sgroups[t];
            let info = StageInfo { name: pair.0.clone(), skills: crate::text::clone_names(&pair.1) };
            proof {
                assert(sgfinal[t as int] == sgroups@[t as int].deep_view());
                assert(info@ == (StageInfoV { name: sgfinal[t as int].0, skills: sgfinal[t as int].1 }));
            }
            stages.push(info);
            proof {
                assert(stages.deep_view() =~~= prev.push(
                    StageInfoV { name: sgfinal[t as int].0, skills: sgfinal[t as int].1 },
                ));
                assert(stages.deep_view() =~= stage_infos_of(sgfinal).take(t as int + 1));
            }
            t = t + 1;
        }
        proof {
            assert(stage_infos_of(sgfinal).take(sgfinal.len() as int) =~= stage_infos_of(sgfinal));
        }
        // gaps
        let mut gaps: Vec<String> = Vec::new();
        let mut q: usize = 0;
        proof {
            assert(gaps.deep_view() =~= Seq::<Seq<char>>::empty());
        }
        while q < entries.len()
            invariant
                q <= entries@.len(),
                ev == entries.deep_view(),
                ev.len() == entries@.len(),
                members.deep_view() == member_names(ev, 0),
                gaps_from(ev, members.deep_view(), q as int, gaps.deep_view()) == gaps_from(
                    ev,
                    members.deep_view(),
                    0,
                    Seq::empty(),
                ),
            decreases entries@.len() - q,
        {
            let stage = &entries[q].1;
            let ghost sv = ev[q as int];
            proof {
                assert(sv == entries@[q as int].deep_view());
                assert(sv.1 == stage@);
            }
            let ghost before_gaps = gaps.deep_view();
            add_gaps_exec(&stage.after, &members, &mut gaps);
            add_gaps_exec(&stage.before, &members, &mut gaps);
            proof {
                assert(gaps.deep_view() == add_gap_list(
                    crate::checks::opt_names(sv.1.before),
                    members.deep_view(),
                    add_gap_list(
                        crate::checks::opt_names(sv.1.after),
                        members.deep_view(),
                        before_gaps,
                        0,
                    ),
                    0,
                ));
                assert(gaps_from(ev, members.deep_view(), q as int, before_gaps) == gaps_from(
                    ev,
                    members.deep_view(),
                    q as int + 1,
                    gaps.deep_view(),
                ));
            }
            q = q + 1;
        }
        proof {
            assert(gaps_from(ev, members.deep_view(), ev.len() as int, gaps.deep_view())
                == gaps.deep_view());
        }
        // members of more than one pipeline
        let mut cross: Vec<String> = Vec::new();
        let mut c: usize = 0;
        proof {
            assert(cross.deep_view() + cross_from(ev, sdv, 0) =~= cross_from(ev, sdv, 0));
        }
        while c < entries.len()
            invariant
                c <= entries@.len(),
                sdv == skills.deep_view(),
                ev == entries.deep_view(),
                ev.len() == entries@.len(),
                cross.deep_view() + cross_from(ev, sdv, c as int) == cross_from(ev, sdv, 0),
            decreases entries@.len() - c,
        {
            let sname = &entries[c].0;
            let ghost sv = ev[c as int];
            proof {
                assert(sv == entries@[c as int].deep_view());
                assert(sv.0 == sname@);
            }
            // look the member up among the skills
            let ns = skills.len();
            let mut w: usize = 0;
            while w < ns && !str_eq(skills[w].name.as_str(), sname.as_str())
                invariant
                    w <= ns,
                    ns == skills@.len(),
                    sdv == skills.deep_view(),
                    sdv.len() == skills@.len(),
                    sv.0 == sname@,
                    forall|m: int| 0 <= m < w ==> (#[trigger] sdv[m]).name != sname@,
                decreases ns - w,
            {
                proof {
                    assert(sdv[w as int] == skills@[w as int]@);
                }
                w = w + 1;
            }
            proof {
                if w < ns {
                    assert(sdv[w as int] == skills@[w as int]@);
                }
                lemma_find_skill_char(sdv, sname@, 0, w as int);
            }
            let mut count: usize = 0;
            if w < ns {
                match &skills[w].frontmatter.pipeline {
                    Some(pl) => {
                        count = pl.len();
                        proof {
                            assert(sdv[w as int] == skills@[w as int]@);
                            assert(pipeline_count_of(sdv, sname@) == pl.deep_view().len());
                        }
                    },
                    None => {
                        proof {
                            assert(sdv[w as int] == skills@[w as int]@);
                            assert(pipeline_count_of(sdv, sname@) == 0);
                        }
                    },
                }
            }
            let ghost prev = cross.deep_view();
            if count > 1 {
                cross.push(sname.clone());
                proof {
                    assert(cross.deep_view() =~~= prev.push(sv.0));
                }
            }
            proof {
                assert(pipeline_count_of(sdv, sv.0) > 1 <==> count > 1);
                assert(cross.deep_view() + cross_from(ev, sdv, c as int + 1) =~= prev
                    + cross_from(ev, sdv, c as int));
            }
            c = c + 1;
        }
        proof {
            assert(cross_from(ev, sdv, ev.len() as int) =~= Seq::<Seq<char>>::empty());
            assert(cross.deep_view() + Seq::<Seq<char>>::empty() =~= cross.deep_view());
        }
        // assemble
        let info = PipelineInfo {
            name: group.0.clone(),
            stages,
            skills: members,
            gaps,
            cross_pipeline: cross,
        };
        proof {
            assert(info@ == pipeline_info_of(sdv, gv));
        }
        let ghost prevr = r.deep_view();
        r.push(info);
        proof {
            assert(r.deep_view() =~~= prevr.push(pipeline_info_of(sdv, gv)));
            assert(spec_extract_pipelines(sdv)[g as int] == pipeline_info_of(sdv, gdv[g as int]));
            assert(r.deep_view() =~= spec_extract_pipelines(sdv).take(g as int + 1));
        }
        g = g + 1;
    }
    proof {
        assert(spec_extract_pipelines(sdv).take(spec_extract_pipelines(sdv).len() as int)
            =~= spec_extract_pipelines(sdv));
        assert(gdv.len() == spec_extract_pipelines(sdv).len());
    }
    r
}

} // verus!
