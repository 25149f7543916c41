//! The reference extractor: scans one skill's body text line by line and
//! yields an ordered list of cross-references, each with its 1-based source
//! line and the heuristic that found it. Four heuristics run independently
//! and their results are concatenated; entries whose target names the owner
//! itself are dropped at the end.

use vstd::prelude::*;

use crate::text::{
    chars_eq, chars_to_string, chars_vec, ci_char_eq, ci_contains, ci_contains_exec,
    ci_lit_match, ci_lit_match_at, ci_slug_char, is_ci_slug_char, is_lower_slug_char,
    is_space_char, is_word_char, lemma_run_end_bounds, lemma_run_end_char, lit_match,
    lit_match_at, lower_slug_char, run_end, space_char, spec_lines, split_lines, str_eq,
    vec_contains_string, word_char,
};

verus! {

/// How a cross-reference was detected.
#[derive(Debug, Clone, Copy, PartialEq, Eq, Hash)]
pub enum DetectionMethod {
    /// Found in a `<see ref="...">` markup element.
    XmlCrossref,
    /// Backtick-quoted skill name beside one of a fixed vocabulary of words.
    BacktickContext,
    /// Mentioned in a table under a "related skill" or "integration" heading.
    RelatedTable,
    /// A fixed natural-language phrase such as "invoke the X skill".
    NaturalLanguage,
}

/// A cross-reference to another skill found in body content.
#[derive(Debug, Clone, PartialEq, Eq, Hash)]
pub struct CrossRef {
    /// The name of the referenced skill.
    pub target: String,
    /// The line number where the reference was found (1-based).
    pub line: usize,
    /// How the reference was detected.
    pub method: DetectionMethod,
}

/// The mathematical value of a [`CrossRef`].
pub ghost struct CrossRefV {
    pub target: Seq<char>,
    pub line: int,
    pub method: DetectionMethod,
}

impl View for CrossRef {
    type V = CrossRefV;

    open spec fn view(&self) -> CrossRefV {
        CrossRefV { target: self.target@, line: self.line as int, method: self.method }
    }
}

impl DeepView for CrossRef {
    type V = CrossRefV;

    open spec fn deep_view(&self) -> CrossRefV {
        self.view()
    }
}

// ---------------------------------------------------------------------------
// Character classes and slug well-formedness
// ---------------------------------------------------------------------------

pub open spec fn space_pred() -> spec_fn(char) -> bool {
    |c: char| is_space_char(c)
}

pub open spec fn lower_slug_pred() -> spec_fn(char) -> bool {
    |c: char| is_lower_slug_char(c) || c == '-'
}

pub open spec fn ci_slug_pred() -> spec_fn(char) -> bool {
    |c: char| is_ci_slug_char(c) || c == '-'
}

pub open spec fn non_tick_pred() -> spec_fn(char) -> bool {
    |c: char| c != '`' && c != '\n'
}

/// A well-formed lowercase slug: nonempty runs of letters and digits
/// separated by single hyphens.
pub open spec fn slug_ok(s: Seq<char>) -> bool {
    &&& s.len() > 0
    &&& s[0] != '-'
    &&& s[s.len() - 1] != '-'
    &&& forall|k: int| 0 <= k < s.len() ==> (is_lower_slug_char(s[k]) || s[k] == '-')
    &&& forall|k: int| 0 <= k < s.len() - 1 ==> !((#[trigger] s[k]) == '-' && s[k + 1] == '-')
}

/// The same shape, letters of either case (the case-insensitive scanners).
pub open spec fn ci_slug_ok(s: Seq<char>) -> bool {
    &&& s.len() > 0
    &&& s[0] != '-'
    &&& s[s.len() - 1] != '-'
    &&& forall|k: int| 0 <= k < s.len() ==> (is_ci_slug_char(s[k]) || s[k] == '-')
    &&& forall|k: int| 0 <= k < s.len() - 1 ==> !((#[trigger] s[k]) == '-' && s[k + 1] == '-')
}

// ---------------------------------------------------------------------------
// Exec scanning helpers
// ---------------------------------------------------------------------------

fn run_space(line: &Vec<char>, i: usize) -> (r: usize)
    requires
        i <= line@.len(),
    ensures
        r as int == run_end(line@, i as int, space_pred()),
        i <= r <= line@.len(),
{
    let n = line.len();
    let mut j: usize = i;
    while j < n && space_char(line[j])
        invariant
            i <= j <= n,
            n == line@.len(),
            forall|k: int| i <= k < j ==> is_space_char(line@[k]),
        decreases n - j,
    {
        j = j + 1;
    }
    proof {
        lemma_run_end_char(line@, i as int, j as int, space_pred());
    }
    j
}

fn run_slug_lower(line: &Vec<char>, i: usize) -> (r: usize)
    requires
        i <= line@.len(),
    ensures
        r as int == run_end(line@, i as int, lower_slug_pred()),
        i <= r <= line@.len(),
{
    let n = line.len();
    let mut j: usize = i;
    while j < n && (lower_slug_char(line[j]) || line[j] == '-')
        invariant
            i <= j <= n,
            n == line@.len(),
            forall|k: int| i <= k < j ==> is_lower_slug_char(line@[k]) || line@[k] == '-',
        decreases n - j,
    {
        j = j + 1;
    }
    proof {
        lemma_run_end_char(line@, i as int, j as int, lower_slug_pred());
    }
    j
}

fn run_slug_ci(line: &Vec<char>, i: usize) -> (r: usize)
    requires
        i <= line@.len(),
    ensures
        r as int == run_end(line@, i as int, ci_slug_pred()),
        i <= r <= line@.len(),
{
    let n = line.len();
    let mut j: usize = i;
    while j < n && (ci_slug_char(line[j]) || line[j] == '-')
        invariant
            i <= j <= n,
            n == line@.len(),
            forall|k: int| i <= k < j ==> is_ci_slug_char(line@[k]) || line@[k] == '-',
        decreases n - j,
    {
        j = j + 1;
    }
    proof {
        lemma_run_end_char(line@, i as int, j as int, ci_slug_pred());
    }
    j
}

fn run_non_tick(line: &Vec<char>, i: usize) -> (r: usize)
    requires
        i <= line@.len(),
    ensures
        r as int == run_end(line@, i as int, non_tick_pred()),
        i <= r <= line@.len(),
{
    let n = line.len();
    let mut j: usize = i;
    while j < n && line[j] != '`' && line[j] != '\n'
        invariant
            i <= j <= n,
            n == line@.len(),
            forall|k: int| i <= k < j ==> line@[k] != '`' && line@[k] != '\n',
        decreases n - j,
    {
        j = j + 1;
    }
    proof {
        lemma_run_end_char(line@, i as int, j as int, non_tick_pred());
    }
    j
}

/// Whether a range of characters has the slug shape.
pub fn check_slug_range(line: &Vec<char>, ss: usize, se: usize) -> (r: bool)
    requires
        ss <= se <= line@.len(),
    ensures
        r == slug_ok(line@.subrange(ss as int, se as int)),
{
    let ghost sub = line@.subrange(ss as int, se as int);
    if ss == se {
        return false;
    }
    if line[ss] == '-' {
        proof {
            assert(sub[0] == line@[ss as int]);
        }
        return false;
    }
    if line[se - 1] == '-' {
        proof {
            assert(sub[sub.len() - 1] == line@[se - 1]);
        }
        return false;
    }
    let mut k: usize = ss;
    while k < se
        invariant
            ss <= k <= se <= line@.len(),
            sub == line@.subrange(ss as int, se as int),
            forall|m: int| ss <= m < k ==> (is_lower_slug_char(line@[m]) || line@[m] == '-'),
            forall|m: int| ss <= m < k - 1 ==> !((#[trigger] line@[m]) == '-' && line@[m + 1] == '-'),
        decreases se - k,
    {
        if !(lower_slug_char(line[k]) || line[k] == '-') {
            proof {
                assert(sub[k - ss] == line@[k as int]);
            }
            return false;
        }
        if k > ss && line[k] == '-' && line[k - 1] == '-' {
            proof {
                assert(sub[k - 1 - ss] == line@[k - 1]);
                assert(sub[k - ss] == line@[k as int]);
            }
            return false;
        }
        k = k + 1;
    }
    proof {
        assert forall|m: int| 0 <= m < sub.len() implies (is_lower_slug_char(sub[m]) || sub[m]
            == '-') by {
            assert(sub[m] == line@[ss + m]);
        }
        assert forall|m: int| 0 <= m < sub.len() - 1 implies !((#[trigger] sub[m]) == '-' && sub[m
            + 1] == '-') by {
            assert(sub[m] == line@[ss + m]);
            assert(sub[m + 1] == line@[ss + m + 1]);
        }
        assert(sub[0] == line@[ss as int]);
        assert(sub[sub.len() - 1] == line@[se - 1]);
    }
    true
}

fn check_slug_ci(line: &Vec<char>, ss: usize, se: usize) -> (r: bool)
    requires
        ss <= se <= line@.len(),
    ensures
        r == ci_slug_ok(line@.subrange(ss as int, se as int)),
{
    let ghost sub = line@.subrange(ss as int, se as int);
    if ss == se {
        return false;
    }
    if line[ss] == '-' {
        proof {
            assert(sub[0] == line@[ss as int]);
        }
        return false;
    }
    if line[se - 1] == '-' {
        proof {
            assert(sub[sub.len() - 1] == line@[se - 1]);
        }
        return false;
    }
    let mut k: usize = ss;
    while k < se
        invariant
            ss <= k <= se <= line@.len(),
            sub == line@.subrange(ss as int, se as int),
            forall|m: int| ss <= m < k ==> (is_ci_slug_char(line@[m]) || line@[m] == '-'),
            forall|m: int| ss <= m < k - 1 ==> !((#[trigger] line@[m]) == '-' && line@[m + 1] == '-'),
        decreases se - k,
    {
        if !(ci_slug_char(line[k]) || line[k] == '-') {
            proof {
                assert(sub[k - ss] == line@[k as int]);
            }
            return false;
        }
        if k > ss && line[k] == '-' && line[k - 1] == '-' {
            proof {
                assert(sub[k - 1 - ss] == line@[k - 1]);
                assert(sub[k - ss] == line@[k as int]);
            }
            return false;
        }
        k = k + 1;
    }
    proof {
        assert forall|m: int| 0 <= m < sub.len() implies (is_ci_slug_char(sub[m]) || sub[m]
            == '-') by {
            assert(sub[m] == line@[ss + m]);
        }
        assert forall|m: int| 0 <= m < sub.len() - 1 implies !((#[trigger] sub[m]) == '-' && sub[m
            + 1] == '-') by {
            assert(sub[m] == line@[ss + m]);
            assert(sub[m + 1] == line@[ss + m + 1]);
        }
        assert(sub[0] == line@[ss as int]);
        assert(sub[sub.len() - 1] == line@[se - 1]);
    }
    true
}

// ---------------------------------------------------------------------------
// Markup-tag heuristic: `<see ref="NAME">`
// ---------------------------------------------------------------------------

/// A match of the markup form at position `i`: the captured slug and the
/// position just past the closing `">`.
pub open spec fn xml_match_at(line: Seq<char>, i: int) -> Option<(Seq<char>, int)> {
    if !lit_match_at(line, i, "<see"@) {
        None
    } else {
        let a = i + "<see"@.len();
        let ws = run_end(line, a, space_pred());
        if ws == a {
            None
        } else if !lit_match_at(line, ws, "ref=\""@) {
            None
        } else {
            let ss = ws + "ref=\""@.len();
            let se = run_end(line, ss, lower_slug_pred());
            if !slug_ok(line.subrange(ss, se)) {
                None
            } else if !lit_match_at(line, se, "\">"@) {
                None
            } else {
                Some((line.subrange(ss, se), se + "\">"@.len()))
            }
        }
    }
}

pub proof fn lemma_xml_match_bounds(line: Seq<char>, i: int)
    requires
        0 <= i,
    ensures
        match xml_match_at(line, i) {
            Some(m) => i < m.1 <= line.len(),
            None => true,
        },
{
    if lit_match_at(line, i, "<see"@) {
        let a = i + "<see"@.len();
        lemma_run_end_bounds(line, a, space_pred());
        let ws = run_end(line, a, space_pred());
        if ws != a && lit_match_at(line, ws, "ref=\""@) {
            let ss = ws + "ref=\""@.len();
            lemma_run_end_bounds(line, ss, lower_slug_pred());
        }
    }
}

fn xml_match_exec(line: &Vec<char>, i: usize) -> (r: Option<(usize, usize, usize)>)
    requires
        i <= line@.len(),
    ensures
        match r {
            Some(m) => {
                &&& xml_match_at(line@, i as int) == Some(
                    (line@.subrange(m.0 as int, m.1 as int), m.2 as int),
                )
                &&& m.0 <= m.1 <= line@.len()
                &&& i < m.2 <= line@.len()
            },
            None => xml_match_at(line@, i as int) is None,
        },
{
    let n = line.len();
    let p_see = chars_vec("<see");
    let p_ref = chars_vec("ref=\"");
    let p_close = chars_vec("\">");
    if !lit_match(line, i, &p_see) {
        return None;
    }
    let a = i + p_see.len();
    let ws = run_space(line, a);
    if ws == a {
        return None;
    }
    if !lit_match(line, ws, &p_ref) {
        return None;
    }
    let ss = ws + p_ref.len();
    let se = run_slug_lower(line, ss);
    if !check_slug_range(line, ss, se) {
        return None;
    }
    if !lit_match(line, se, &p_close) {
        return None;
    }
    Some((ss, se, se + p_close.len()))
}

/// All markup-tag captures in one line, scanning left to right without
/// overlap.
pub open spec fn xml_line_scan(line: Seq<char>, i: int) -> Seq<Seq<char>>
    decreases line.len() - i when 0 <= i via xml_line_scan_dec
{
    if i >= line.len() {
        Seq::empty()
    } else {
        match xml_match_at(line, i) {
            Some(m) => seq![m.0] + xml_line_scan(line, m.1),
            None => xml_line_scan(line, i + 1),
        }
    }
}

#[via_fn]
proof fn xml_line_scan_dec(line: Seq<char>, i: int) {
    lemma_xml_match_bounds(line, i);
}

// ---------------------------------------------------------------------------
// Vocabulary words for the context heuristics
// ---------------------------------------------------------------------------

pub open spec fn boundary_before(line: Seq<char>, q: int) -> bool {
    q == 0 || (q - 1 < line.len() && !is_word_char(line[q - 1]))
}

pub open spec fn boundary_after(line: Seq<char>, p: int) -> bool {
    p >= line.len() || !is_word_char(line[p])
}

/// Length of the vocabulary word that matches at `q` with word boundaries on
/// both sides, or 0 when none does.
pub open spec fn vocab_len_at(line: Seq<char>, q: int) -> int {
    if !(0 <= q <= line.len() && boundary_before(line, q)) {
        0
    } else if ci_lit_match_at(line, q, "skill"@) && boundary_after(line, q + "skill"@.len()) {
        "skill"@.len() as int
    } else if ci_lit_match_at(line, q, "invoke"@) && boundary_after(line, q + "invoke"@.len()) {
        "invoke"@.len() as int
    } else if ci_lit_match_at(line, q, "load"@) && boundary_after(line, q + "load"@.len()) {
        "load"@.len() as int
    } else if ci_lit_match_at(line, q, "use"@) && boundary_after(line, q + "use"@.len()) {
        "use"@.len() as int
    } else {
        0
    }
}

pub proof fn lemma_vocab_len_bounds(line: Seq<char>, q: int)
    ensures
        0 <= vocab_len_at(line, q),
        vocab_len_at(line, q) > 0 ==> q + vocab_len_at(line, q) <= line.len() && 0 <= q,
{
}

fn boundary_before_exec(line: &Vec<char>, q: usize) -> (r: bool)
    requires
        q <= line@.len(),
    ensures
        r == boundary_before(line@, q as int),
{
    q == 0 || !word_char(line[q - 1])
}

fn boundary_after_exec(line: &Vec<char>, p: usize) -> (r: bool)
    requires
        p <= line@.len(),
    ensures
        r == boundary_after(line@, p as int),
{
    p >= line.len() || !word_char(line[p])
}

fn vocab_at(line: &Vec<char>, q: usize) -> (r: usize)
    requires
        q <= line@.len(),
    ensures
        r as int == vocab_len_at(line@, q as int),
{
    let p_skill = chars_vec("skill");
    let p_invoke = chars_vec("invoke");
    let p_load = chars_vec("load");
    let p_use = chars_vec("use");
    if !boundary_before_exec(line, q) {
        return 0;
    }
    proof {
        assert(line@.len() == line.len());
    }
    let m_skill = ci_lit_match(line, q, &p_skill);
    let b_skill: bool = if m_skill {
        boundary_after_exec(line, q + p_skill.len())
    } else {
        false
    };
    if m_skill && b_skill {
        return p_skill.len();
    }
    let m_invoke = ci_lit_match(line, q, &p_invoke);
    let b_invoke: bool = if m_invoke {
        boundary_after_exec(line, q + p_invoke.len())
    } else {
        false
    };
    if m_invoke && b_invoke {
        return p_invoke.len();
    }
    let m_load = ci_lit_match(line, q, &p_load);
    let b_load: bool = if m_load {
        boundary_after_exec(line, q + p_load.len())
    } else {
        false
    };
    if m_load && b_load {
        return p_load.len();
    }
    let m_use = ci_lit_match(line, q, &p_use);
    let b_use: bool = if m_use {
        boundary_after_exec(line, q + p_use.len())
    } else {
        false
    };
    if m_use && b_use {
        return p_use.len();
    }
    0
}

/// The last position in `[lo, hi]` where a vocabulary word matches with
/// boundaries, or -1 when none does.
pub open spec fn last_vocab_in(line: Seq<char>, lo: int, hi: int) -> int
    decreases hi + 1 - lo when lo <= hi + 1
{
    if hi < lo {
        -1
    } else if vocab_len_at(line, hi) > 0 {
        hi
    } else {
        last_vocab_in(line, lo, hi - 1)
    }
}

pub proof fn lemma_last_vocab_bounds(line: Seq<char>, lo: int, hi: int)
    requires
        lo <= hi + 1,
    ensures
        last_vocab_in(line, lo, hi) == -1 || (lo <= last_vocab_in(line, lo, hi) <= hi
            && vocab_len_at(line, last_vocab_in(line, lo, hi)) > 0),
    decreases hi + 1 - lo,
{
    if hi >= lo && !(vocab_len_at(line, hi) > 0) {
        lemma_last_vocab_bounds(line, lo, hi - 1);
    }
}

fn last_vocab_exec(line: &Vec<char>, lo: usize, hi: usize) -> (r: Option<(usize, usize)>)
    requires
        hi <= line@.len(),
        lo <= hi + 1,
    ensures
        match r {
            Some(m) => last_vocab_in(line@, lo as int, hi as int) == m.0 && m.1 as int
                == vocab_len_at(line@, m.0 as int) && m.1 > 0,
            None => last_vocab_in(line@, lo as int, hi as int) == -1,
        },
{
    if hi < lo {
        return None;
    }
    let mut q: usize = hi;
    loop
        invariant
            lo <= q <= hi <= line@.len(),
            last_vocab_in(line@, lo as int, hi as int) == last_vocab_in(
                line@,
                lo as int,
                q as int,
            ),
        decreases q,
    {
        let wl = vocab_at(line, q);
        if wl > 0 {
            return Some((q, wl));
        }
        if q == lo {
            proof {
                assert(last_vocab_in(line@, lo as int, lo as int - 1) == -1);
                assert(last_vocab_in(line@, lo as int, lo as int) == -1);
            }
            return None;
        }
        q = q - 1;
    }
}

// ---------------------------------------------------------------------------
// Backtick-adjacency heuristic
// ---------------------------------------------------------------------------

/// First alternative: a vocabulary word, then non-backtick filler, then a
/// backtick-quoted slug. The match ends after the closing backtick.
pub open spec fn bt_alt1_at(line: Seq<char>, i: int) -> Option<(Seq<char>, int)> {
    let wl = vocab_len_at(line, i);
    if wl <= 0 {
        None
    } else {
        let bt = run_end(line, i + wl, non_tick_pred());
        if !(bt < line.len() && line[bt] == '`') {
            None
        } else {
            let ss = bt + 1;
            let se = run_end(line, ss, ci_slug_pred());
            if !ci_slug_ok(line.subrange(ss, se)) {
                None
            } else if !(se < line.len() && line[se] == '`') {
                None
            } else {
                Some((line.subrange(ss, se), se + 1))
            }
        }
    }
}

/// Second alternative: a backtick-quoted slug, then non-backtick filler, then
/// a vocabulary word. The filler is taken as long as possible, so the match
/// ends after the last vocabulary word before the next backtick.
pub open spec fn bt_alt2_at(line: Seq<char>, i: int) -> Option<(Seq<char>, int)> {
    if !(0 <= i && i < line.len() && line[i] == '`') {
        None
    } else {
        let ss = i + 1;
        let se = run_end(line, ss, ci_slug_pred());
        if !ci_slug_ok(line.subrange(ss, se)) {
            None
        } else if !(se < line.len() && line[se] == '`') {
            None
        } else {
            let w = run_end(line, se + 1, non_tick_pred());
            let q = last_vocab_in(line, se + 1, w);
            if q < 0 {
                None
            } else {
                Some((line.subrange(ss, se), q + vocab_len_at(line, q)))
            }
        }
    }
}

pub open spec fn bt_match_at(line: Seq<char>, i: int) -> Option<(Seq<char>, int)> {
    match bt_alt1_at(line, i) {
        Some(m) => Some(m),
        None => bt_alt2_at(line, i),
    }
}

pub proof fn lemma_bt_match_bounds(line: Seq<char>, i: int)
    requires
        0 <= i,
    ensures
        match bt_match_at(line, i) {
            Some(m) => i < m.1 <= line.len(),
            None => true,
        },
{
    let wl = vocab_len_at(line, i);
    lemma_vocab_len_bounds(line, i);
    if wl > 0 {
        lemma_run_end_bounds(line, i + wl, non_tick_pred());
        let bt = run_end(line, i + wl, non_tick_pred());
        if bt < line.len() && line[bt] == '`' {
            lemma_run_end_bounds(line, bt + 1, ci_slug_pred());
        }
    }
    if i < line.len() && line[i] == '`' {
        let ss = i + 1;
        lemma_run_end_bounds(line, ss, ci_slug_pred());
        let se = run_end(line, ss, ci_slug_pred());
        if ci_slug_ok(line.subrange(ss, se)) && se < line.len() && line[se] == '`' {
            lemma_run_end_bounds(line, se + 1, non_tick_pred());
            let w = run_end(line, se + 1, non_tick_pred());
            lemma_last_vocab_bounds(line, se + 1, w);
            let q = last_vocab_in(line, se + 1, w);
            if q >= 0 {
                lemma_vocab_len_bounds(line, q);
            }
        }
    }
}

fn bt_match_exec(line: &Vec<char>, i: usize) -> (r: Option<(usize, usize, usize)>)
    requires
        i <= line@.len(),
    ensures
        match r {
            Some(m) => {
                &&& bt_match_at(line@, i as int) == Some(
                    (line@.subrange(m.0 as int, m.1 as int), m.2 as int),
                )
                &&& m.0 <= m.1 <= line@.len()
                &&& i < m.2 <= line@.len()
            },
            None => bt_match_at(line@, i as int) is None,
        },
{
    proof {
        lemma_bt_match_bounds(line@, i as int);
    }
    let n = line.len();
    // first alternative
    let wl = vocab_at(line, i);
    if wl > 0 {
        let bt = run_non_tick(line, i + wl);
        if bt < n && line[bt] == '`' {
            let ss = bt + 1;
            let se = run_slug_ci(line, ss);
            if check_slug_ci(line, ss, se) && se < n && line[se] == '`' {
                return Some((ss, se, se + 1));
            }
        }
    }
    proof {
        assert(bt_alt1_at(line@, i as int) is None);
    }
    // second alternative
    if i < n && line[i] == '`' {
        let ss = i + 1;
        let se = run_slug_ci(line, ss);
        if check_slug_ci(line, ss, se) && se < n && line[se] == '`' {
            let w = run_non_tick(line, se + 1);
            match last_vocab_exec(line, se + 1, w) {
                Some((q, qwl)) => {
                    return Some((ss, se, q + qwl));
                },
                None => {
                    return None;
                },
            }
        }
    }
    None
}

pub open spec fn bt_line_scan(line: Seq<char>, i: int) -> Seq<Seq<char>>
    decreases line.len() - i when 0 <= i via bt_line_scan_dec
{
    if i >= line.len() {
        Seq::empty()
    } else {
        match bt_match_at(line, i) {
            Some(m) => seq![m.0] + bt_line_scan(line, m.1),
            None => bt_line_scan(line, i + 1),
        }
    }
}

#[via_fn]
proof fn bt_line_scan_dec(line: Seq<char>, i: int) {
    lemma_bt_match_bounds(line, i);
}

// ---------------------------------------------------------------------------
// Backtick-quoted slugs alone (for the related-table heuristic)
// ---------------------------------------------------------------------------

pub open spec fn tick_match_at(line: Seq<char>, i: int) -> Option<(Seq<char>, int)> {
    if !(0 <= i && i < line.len() && line[i] == '`') {
        None
    } else {
        let ss = i + 1;
        let se = run_end(line, ss, lower_slug_pred());
        if !slug_ok(line.subrange(ss, se)) {
            None
        } else if !(se < line.len() && line[se] == '`') {
            None
        } else {
            Some((line.subrange(ss, se), se + 1))
        }
    }
}

pub proof fn lemma_tick_match_bounds(line: Seq<char>, i: int)
    requires
        0 <= i,
    ensures
        match tick_match_at(line, i) {
            Some(m) => i < m.1 <= line.len(),
            None => true,
        },
{
    if i < line.len() && line[i] == '`' {
        lemma_run_end_bounds(line, i + 1, lower_slug_pred());
    }
}

fn tick_match_exec(line: &Vec<char>, i: usize) -> (r: Option<(usize, usize, usize)>)
    requires
        i <= line@.len(),
    ensures
        match r {
            Some(m) => {
                &&& tick_match_at(line@, i as int) == Some(
                    (line@.subrange(m.0 as int, m.1 as int), m.2 as int),
                )
                &&& m.0 <= m.1 <= line@.len()
                &&& i < m.2 <= line@.len()
            },
            None => tick_match_at(line@, i as int) is None,
        },
{
    let n = line.len();
    if i < n && line[i] == '`' {
        let ss = i + 1;
        let se = run_slug_lower(line, ss);
        if check_slug_range(line, ss, se) && se < n && line[se] == '`' {
            return Some((ss, se, se + 1));
        }
    }
    None
}

pub open spec fn tick_line_scan(line: Seq<char>, i: int) -> Seq<Seq<char>>
    decreases line.len() - i when 0 <= i via tick_line_scan_dec
{
    if i >= line.len() {
        Seq::empty()
    } else {
        match tick_match_at(line, i) {
            Some(m) => seq![m.0] + tick_line_scan(line, m.1),
            None => tick_line_scan(line, i + 1),
        }
    }
}

#[via_fn]
proof fn tick_line_scan_dec(line: Seq<char>, i: int) {
    lemma_tick_match_bounds(line, i);
}

// ---------------------------------------------------------------------------
// Natural-language heuristic
// ---------------------------------------------------------------------------

pub open spec fn nat_keyword(kind: int) -> Seq<char> {
    if kind == 1 {
        "load"@
    } else if kind == 2 {
        "use"@
    } else {
        "invoke"@
    }
}

pub open spec fn nat_has_the(kind: int) -> bool {
    kind == 0 || kind == 2
}

/// A slug, then whitespace, then the literal tail; the capture is the slug
/// and the match ends after the tail.
pub open spec fn nat_slug_tail(line: Seq<char>, k: int, tail: Seq<char>) -> Option<
    (Seq<char>, int),
> {
    let se = run_end(line, k, ci_slug_pred());
    if !ci_slug_ok(line.subrange(k, se)) {
        None
    } else {
        let ws = run_end(line, se, space_pred());
        if ws == se {
            None
        } else if ci_lit_match_at(line, ws, tail) {
            Some((line.subrange(k, se), ws + tail.len()))
        } else {
            None
        }
    }
}

pub open spec fn nat_tails(line: Seq<char>, k: int, kind: int) -> Option<(Seq<char>, int)> {
    if kind == 1 {
        match nat_slug_tail(line, k, "first"@) {
            Some(m) => Some(m),
            None => nat_slug_tail(line, k, "skill"@),
        }
    } else if kind == 3 {
        nat_slug_tail(line, k, "on"@)
    } else {
        nat_slug_tail(line, k, "skill"@)
    }
}

pub open spec fn nat_the_branch(line: Seq<char>, k: int, kind: int) -> Option<(Seq<char>, int)> {
    if !ci_lit_match_at(line, k, "the"@) {
        None
    } else {
        let k2 = k + "the"@.len();
        let ws2 = run_end(line, k2, space_pred());
        if ws2 == k2 {
            None
        } else {
            nat_tails(line, ws2, kind)
        }
    }
}

pub open spec fn nat_match_at(line: Seq<char>, i: int, kind: int) -> Option<(Seq<char>, int)> {
    let kw = nat_keyword(kind);
    if !ci_lit_match_at(line, i, kw) {
        None
    } else {
        let j = i + kw.len();
        let ws = run_end(line, j, space_pred());
        if ws == j {
            None
        } else if nat_has_the(kind) {
            match nat_the_branch(line, ws, kind) {
                Some(m) => Some(m),
                None => nat_tails(line, ws, kind),
            }
        } else {
            nat_tails(line, ws, kind)
        }
    }
}

pub proof fn lemma_nat_slug_tail_bounds(line: Seq<char>, k: int, tail: Seq<char>)
    requires
        0 <= k <= line.len(),
    ensures
        match nat_slug_tail(line, k, tail) {
            Some(m) => k < m.1 <= line.len(),
            None => true,
        },
{
    lemma_run_end_bounds(line, k, ci_slug_pred());
    let se = run_end(line, k, ci_slug_pred());
    if ci_slug_ok(line.subrange(k, se)) {
        lemma_run_end_bounds(line, se, space_pred());
    }
}

pub proof fn lemma_nat_tails_bounds(line: Seq<char>, k: int, kind: int)
    requires
        0 <= k <= line.len(),
    ensures
        match nat_tails(line, k, kind) {
            Some(m) => k < m.1 <= line.len(),
            None => true,
        },
{
    lemma_nat_slug_tail_bounds(line, k, "first"@);
    lemma_nat_slug_tail_bounds(line, k, "skill"@);
    lemma_nat_slug_tail_bounds(line, k, "on"@);
}

pub proof fn lemma_nat_match_bounds(line: Seq<char>, i: int, kind: int)
    requires
        0 <= i,
    ensures
        match nat_match_at(line, i, kind) {
            Some(m) => i < m.1 <= line.len(),
            None => true,
        },
{
    let kw = nat_keyword(kind);
    if ci_lit_match_at(line, i, kw) {
        let j = i + kw.len();
        lemma_run_end_bounds(line, j, space_pred());
        let ws = run_end(line, j, space_pred());
        if ws != j {
            lemma_nat_tails_bounds(line, ws, kind);
            if ci_lit_match_at(line, ws, "the"@) {
                let k2 = ws + "the"@.len();
                lemma_run_end_bounds(line, k2, space_pred());
                let ws2 = run_end(line, k2, space_pred());
                if ws2 != k2 {
                    lemma_nat_tails_bounds(line, ws2, kind);
                }
            }
        }
    }
}

fn nat_slug_tail_exec(line: &Vec<char>, k: usize, tail: &Vec<char>) -> (r: Option<
    (usize, usize, usize),
>)
    requires
        k <= line@.len(),
    ensures
        match r {
            Some(m) => {
                &&& nat_slug_tail(line@, k as int, tail@) == Some(
                    (line@.subrange(m.0 as int, m.1 as int), m.2 as int),
                )
                &&& m.0 <= m.1 <= line@.len()
                &&& k < m.2 <= line@.len()
            },
            None => nat_slug_tail(line@, k as int, tail@) is None,
        },
{
    proof {
        lemma_nat_slug_tail_bounds(line@, k as int, tail@);
    }
    let se = run_slug_ci(line, k);
    if !check_slug_ci(line, k, se) {
        return None;
    }
    let ws = run_space(line, se);
    if ws == se {
        return None;
    }
    if ci_lit_match(line, ws, tail) {
        proof {
            assert(line@.len() == line.len());
        }
        return Some((k, se, ws + tail.len()));
    }
    None
}

fn nat_tails_exec(line: &Vec<char>, k: usize, kind: u8) -> (r: Option<(usize, usize, usize)>)
    requires
        k <= line@.len(),
        kind < 4,
    ensures
        match r {
            Some(m) => {
                &&& nat_tails(line@, k as int, kind as int) == Some(
                    (line@.subrange(m.0 as int, m.1 as int), m.2 as int),
                )
                &&& m.0 <= m.1 <= line@.len()
                &&& k < m.2 <= line@.len()
            },
            None => nat_tails(line@, k as int, kind as int) is None,
        },
{
    if kind == 1 {
        let p_first = chars_vec("first");
        match nat_slug_tail_exec(line, k, &p_first) {
            Some(m) => Some(m),
            None => {
                let p_skill = chars_vec("skill");
                nat_slug_tail_exec(line, k, &p_skill)
            },
        }
    } else if kind == 3 {
        let p_on = chars_vec("on");
        nat_slug_tail_exec(line, k, &p_on)
    } else {
        let p_skill = chars_vec("skill");
        nat_slug_tail_exec(line, k, &p_skill)
    }
}

fn nat_match_exec(line: &Vec<char>, i: usize, kind: u8) -> (r: Option<(usize, usize, usize)>)
    requires
        i <= line@.len(),
        kind < 4,
    ensures
        match r {
            Some(m) => {
                &&& nat_match_at(line@, i as int, kind as int) == Some(
                    (line@.subrange(m.0 as int, m.1 as int), m.2 as int),
                )
                &&& m.0 <= m.1 <= line@.len()
                &&& i < m.2 <= line@.len()
            },
            None => nat_match_at(line@, i as int, kind as int) is None,
        },
{
    let kw: Vec<char> = if kind == 1 {
        chars_vec("load")
    } else if kind == 2 {
        chars_vec("use")
    } else {
        chars_vec("invoke")
    };
    if !ci_lit_match(line, i, &kw) {
        return None;
    }
    proof {
        assert(line@.len() == line.len());
    }
    let j = i + kw.len();
    let ws = run_space(line, j);
    if ws == j {
        return None;
    }
    if kind == 0 || kind == 2 {
        let p_the = chars_vec("the");
        if ci_lit_match(line, ws, &p_the) {
            proof {
                assert(line@.len() == line.len());
            }
            let k2 = ws + p_the.len();
            let ws2 = run_space(line, k2);
            if ws2 != k2 {
                match nat_tails_exec(line, ws2, kind) {
                    Some(m) => {
                        return Some(m);
                    },
                    None => {},
                }
            }
        }
        proof {
            assert(nat_the_branch(line@, ws as int, kind as int) is None);
        }
    }
    nat_tails_exec(line, ws, kind)
}

pub open spec fn nat_line_scan(line: Seq<char>, i: int, kind: int) -> Seq<Seq<char>>
    decreases line.len() - i when 0 <= i via nat_line_scan_dec
{
    if i >= line.len() {
        Seq::empty()
    } else {
        match nat_match_at(line, i, kind) {
            Some(m) => seq![m.0] + nat_line_scan(line, m.1, kind),
            None => nat_line_scan(line, i + 1, kind),
        }
    }
}

#[via_fn]
proof fn nat_line_scan_dec(line: Seq<char>, i: int, kind: int) {
    lemma_nat_match_bounds(line, i, kind);
}


// ---------------------------------------------------------------------------
// Whole-content scans
// ---------------------------------------------------------------------------

/// Lifts the captures of one line to cross-references with a line number.
pub open spec fn line_refs(targets: Seq<Seq<char>>, ln: int, m: DetectionMethod) -> Seq<
    CrossRefV,
> {
    targets.map_values(|t: Seq<char>| CrossRefV { target: t, line: ln, method: m })
}

pub open spec fn xml_refs_from(lines: Seq<Seq<char>>, idx: int) -> Seq<CrossRefV>
    decreases lines.len() - idx when 0 <= idx
{
    if idx >= lines.len() {
        Seq::empty()
    } else {
        line_refs(xml_line_scan(lines[idx], 0), idx + 1, DetectionMethod::XmlCrossref)
            + xml_refs_from(lines, idx + 1)
    }
}

pub open spec fn bt_refs_from(lines: Seq<Seq<char>>, idx: int) -> Seq<CrossRefV>
    decreases lines.len() - idx when 0 <= idx
{
    if idx >= lines.len() {
        Seq::empty()
    } else {
        line_refs(bt_line_scan(lines[idx], 0), idx + 1, DetectionMethod::BacktickContext)
            + bt_refs_from(lines, idx + 1)
    }
}

/// A heading line that opens a related-skills or integration section.
pub open spec fn heading_hit(line: Seq<char>) -> bool {
    ci_contains(line, "related skill"@) || ci_contains(line, "integration"@)
}

pub open spec fn has_pipe(line: Seq<char>) -> bool {
    exists|k: int| 0 <= k < line.len() && line[k] == '|'
}

/// Table scanning carries one piece of state from line to line: whether the
/// scan stands inside a related-skills section.
pub open spec fn table_refs_from(lines: Seq<Seq<char>>, idx: int, in_sec: bool) -> Seq<CrossRefV>
    decreases lines.len() - idx when 0 <= idx
{
    if idx >= lines.len() {
        Seq::empty()
    } else {
        let line = lines[idx];
        if heading_hit(line) {
            table_refs_from(lines, idx + 1, true)
        } else {
            let sec = if line.len() > 0 && line[0] == '#' && in_sec {
                false
            } else {
                in_sec
            };
            if sec && has_pipe(line) {
                line_refs(tick_line_scan(line, 0), idx + 1, DetectionMethod::RelatedTable)
                    + table_refs_from(lines, idx + 1, sec)
            } else {
                table_refs_from(lines, idx + 1, sec)
            }
        }
    }
}

pub open spec fn nat_refs_from(lines: Seq<Seq<char>>, idx: int, kind: int) -> Seq<CrossRefV>
    decreases lines.len() - idx when 0 <= idx
{
    if idx >= lines.len() {
        Seq::empty()
    } else {
        line_refs(nat_line_scan(lines[idx], 0, kind), idx + 1, DetectionMethod::NaturalLanguage)
            + nat_refs_from(lines, idx + 1, kind)
    }
}

/// Every reference the four heuristics find, in their fixed order: markup
/// tags, backtick context, related tables, then the natural-language
/// patterns one by one.
pub open spec fn spec_all_refs(content: Seq<char>) -> Seq<CrossRefV> {
    let lines = spec_lines(content);
    xml_refs_from(lines, 0) + bt_refs_from(lines, 0) + table_refs_from(lines, 0, false)
        + nat_refs_from(lines, 0, 0) + nat_refs_from(lines, 0, 1) + nat_refs_from(lines, 0, 2)
        + nat_refs_from(lines, 0, 3)
}

pub open spec fn keep_pred(owner: Seq<char>) -> spec_fn(CrossRefV) -> bool {
    |c: CrossRefV| c.target != owner
}

/// What `extract_references` returns: everything the heuristics find, with
/// references to the owner itself dropped.
pub open spec fn spec_extract(content: Seq<char>, owner: Seq<char>) -> Seq<CrossRefV> {
    spec_all_refs(content).filter(keep_pred(owner))
}

// ---------------------------------------------------------------------------
// Exec scan loops
// ---------------------------------------------------------------------------

fn scan_line_xml(line: &Vec<char>, ln: usize, out: &mut Vec<CrossRef>)
    ensures
        final(out).deep_view() == old(out).deep_view() + line_refs(
            xml_line_scan(line@, 0),
            ln as int,
            DetectionMethod::XmlCrossref,
        ),
{
    let ghost base = out.deep_view();
    let ghost m = DetectionMethod::XmlCrossref;
    let mut i: usize = 0;
    while i < line.len()
        invariant
            i <= line@.len(),
            m == DetectionMethod::XmlCrossref,
            out.deep_view() + line_refs(xml_line_scan(line@, i as int), ln as int, m) == base
                + line_refs(xml_line_scan(line@, 0), ln as int, m),
        decreases line@.len() - i,
    {
        match xml_match_exec(line, i) {
            Some((ss, se, end)) => {
                let ghost prev = out.deep_view();
                let ghost sub = line@.subrange(ss as int, se as int);
                let t = chars_to_string(line, ss, se);
                let cr = CrossRef { target: t, line: ln, method: DetectionMethod::XmlCrossref };
                proof {
                    assert(cr@ == CrossRefV { target: sub, line: ln as int, method: m });
                }
                out.push(cr);
                proof {
                    assert(out.deep_view() =~~= prev.push(
                        CrossRefV { target: sub, line: ln as int, method: m },
                    ));
                    assert(xml_line_scan(line@, i as int) == seq![sub] + xml_line_scan(
                        line@,
                        end as int,
                    ));
                    assert(line_refs(seq![sub] + xml_line_scan(line@, end as int), ln as int, m)
                        =~= seq![CrossRefV { target: sub, line: ln as int, method: m }]
                        + line_refs(xml_line_scan(line@, end as int), ln as int, m));
                    assert(out.deep_view() + line_refs(
                        xml_line_scan(line@, end as int),
                        ln as int,
                        m,
                    ) =~= prev + line_refs(xml_line_scan(line@, i as int), ln as int, m));
                }
                i = end;
            },
            None => {
                proof {
                    assert(xml_line_scan(line@, i as int) == xml_line_scan(line@, i as int + 1));
                }
                i = i + 1;
            },
        }
    }
    proof {
        assert(xml_line_scan(line@, i as int) =~= Seq::<Seq<char>>::empty());
        assert(line_refs(Seq::<Seq<char>>::empty(), ln as int, m) =~= Seq::<CrossRefV>::empty());
        assert(out.deep_view() =~= out.deep_view() + Seq::<CrossRefV>::empty());
        assert(base + line_refs(xml_line_scan(line@, 0), ln as int, m) =~= out.deep_view());
    }
}

fn scan_line_bt(line: &Vec<char>, ln: usize, out: &mut Vec<CrossRef>)
    ensures
        final(out).deep_view() == old(out).deep_view() + line_refs(
            bt_line_scan(line@, 0),
            ln as int,
            DetectionMethod::BacktickContext,
        ),
{
    let ghost base = out.deep_view();
    let ghost m = DetectionMethod::BacktickContext;
    let mut i: usize = 0;
    while i < line.len()
        invariant
            i <= line@.len(),
            m == DetectionMethod::BacktickContext,
            out.deep_view() + line_refs(bt_line_scan(line@, i as int), ln as int, m) == base
                + line_refs(bt_line_scan(line@, 0), ln as int, m),
        decreases line@.len() - i,
    {
        match bt_match_exec(line, i) {
            Some((ss, se, end)) => {
                let ghost prev = out.deep_view();
                let ghost sub = line@.subrange(ss as int, se as int);
                let t = chars_to_string(line, ss, se);
                let cr = CrossRef {
                    target: t,
                    line: ln,
                    method: DetectionMethod::BacktickContext,
                };
                proof {
                    assert(cr@ == CrossRefV { target: sub, line: ln as int, method: m });
                }
                out.push(cr);
                proof {
                    assert(out.deep_view() =~~= prev.push(
                        CrossRefV { target: sub, line: ln as int, method: m },
                    ));
                    assert(bt_line_scan(line@, i as int) == seq![sub] + bt_line_scan(
                        line@,
                        end as int,
                    ));
                    assert(line_refs(seq![sub] + bt_line_scan(line@, end as int), ln as int, m)
                        =~= seq![CrossRefV { target: sub, line: ln as int, method: m }]
                        + line_refs(bt_line_scan(line@, end as int), ln as int, m));
                    assert(out.deep_view() + line_refs(
                        bt_line_scan(line@, end as int),
                        ln as int,
                        m,
                    ) =~= prev + line_refs(bt_line_scan(line@, i as int), ln as int, m));
                }
                i = end;
            },
            None => {
                proof {
                    assert(bt_line_scan(line@, i as int) == bt_line_scan(line@, i as int + 1));
                }
                i = i + 1;
            },
        }
    }
    proof {
        assert(bt_line_scan(line@, i as int) =~= Seq::<Seq<char>>::empty());
        assert(line_refs(Seq::<Seq<char>>::empty(), ln as int, m) =~= Seq::<CrossRefV>::empty());
        assert(out.deep_view() =~= out.deep_view() + Seq::<CrossRefV>::empty());
        assert(base + line_refs(bt_line_scan(line@, 0), ln as int, m) =~= out.deep_view());
    }
}

fn scan_line_tick(line: &Vec<char>, ln: usize, out: &mut Vec<CrossRef>)
    ensures
        final(out).deep_view() == old(out).deep_view() + line_refs(
            tick_line_scan(line@, 0),
            ln as int,
            DetectionMethod::RelatedTable,
        ),
{
    let ghost base = out.deep_view();
    let ghost m = DetectionMethod::RelatedTable;
    let mut i: usize = 0;
    while i < line.len()
        invariant
            i <= line@.len(),
            m == DetectionMethod::RelatedTable,
            out.deep_view() + line_refs(tick_line_scan(line@, i as int), ln as int, m) == base
                + line_refs(tick_line_scan(line@, 0), ln as int, m),
        decreases line@.len() - i,
    {
        match tick_match_exec(line, i) {
            Some((ss, se, end)) => {
                let ghost prev = out.deep_view();
                let ghost sub = line@.subrange(ss as int, se as int);
                let t = chars_to_string(line, ss, se);
                let cr = CrossRef { target: t, line: ln, method: DetectionMethod::RelatedTable };
                proof {
                    assert(cr@ == CrossRefV { target: sub, line: ln as int, method: m });
                }
                out.push(cr);
                proof {
                    assert(out.deep_view() =~~= prev.push(
                        CrossRefV { target: sub, line: ln as int, method: m },
                    ));
                    assert(tick_line_scan(line@, i as int) == seq![sub] + tick_line_scan(
                        line@,
                        end as int,
                    ));
                    assert(line_refs(seq![sub] + tick_line_scan(line@, end as int), ln as int, m)
                        =~= seq![CrossRefV { target: sub, line: ln as int, method: m }]
                        + line_refs(tick_line_scan(line@, end as int), ln as int, m));
                    assert(out.deep_view() + line_refs(
                        tick_line_scan(line@, end as int),
                        ln as int,
                        m,
                    ) =~= prev + line_refs(tick_line_scan(line@, i as int), ln as int, m));
                }
                i = end;
            },
            None => {
                proof {
                    assert(tick_line_scan(line@, i as int) == tick_line_scan(
                        line@,
                        i as int + 1,
                    ));
                }
                i = i + 1;
            },
        }
    }
    proof {
        assert(tick_line_scan(line@, i as int) =~= Seq::<Seq<char>>::empty());
        assert(line_refs(Seq::<Seq<char>>::empty(), ln as int, m) =~= Seq::<CrossRefV>::empty());
        assert(out.deep_view() =~= out.deep_view() + Seq::<CrossRefV>::empty());
        assert(base + line_refs(tick_line_scan(line@, 0), ln as int, m) =~= out.deep_view());
    }
}

fn scan_line_nat(line: &Vec<char>, ln: usize, kind: u8, out: &mut Vec<CrossRef>)
    requires
        kind < 4,
    ensures
        final(out).deep_view() == old(out).deep_view() + line_refs(
            nat_line_scan(line@, 0, kind as int),
            ln as int,
            DetectionMethod::NaturalLanguage,
        ),
{
    let ghost base = out.deep_view();
    let ghost m = DetectionMethod::NaturalLanguage;
    let mut i: usize = 0;
    while i < line.len()
        invariant
            i <= line@.len(),
            kind < 4,
            m == DetectionMethod::NaturalLanguage,
            out.deep_view() + line_refs(nat_line_scan(line@, i as int, kind as int), ln as int, m)
                == base + line_refs(nat_line_scan(line@, 0, kind as int), ln as int, m),
        decreases line@.len() - i,
    {
        match nat_match_exec(line, i, kind) {
            Some((ss, se, end)) => {
                let ghost prev = out.deep_view();
                let ghost sub = line@.subrange(ss as int, se as int);
                let t = chars_to_string(line, ss, se);
                let cr = CrossRef {
                    target: t,
                    line: ln,
                    method: DetectionMethod::NaturalLanguage,
                };
                proof {
                    assert(cr@ == CrossRefV { target: sub, line: ln as int, method: m });
                }
                out.push(cr);
                proof {
                    assert(out.deep_view() =~~= prev.push(
                        CrossRefV { target: sub, line: ln as int, method: m },
                    ));
                    assert(nat_line_scan(line@, i as int, kind as int) == seq![sub]
                        + nat_line_scan(line@, end as int, kind as int));
                    assert(line_refs(
                        seq![sub] + nat_line_scan(line@, end as int, kind as int),
                        ln as int,
                        m,
                    ) =~= seq![CrossRefV { target: sub, line: ln as int, method: m }] + line_refs(
                        nat_line_scan(line@, end as int, kind as int),
                        ln as int,
                        m,
                    ));
                    assert(out.deep_view() + line_refs(
                        nat_line_scan(line@, end as int, kind as int),
                        ln as int,
                        m,
                    ) =~= prev + line_refs(
                        nat_line_scan(line@, i as int, kind as int),
                        ln as int,
                        m,
                    ));
                }
                i = end;
            },
            None => {
                proof {
                    assert(nat_line_scan(line@, i as int, kind as int) == nat_line_scan(
                        line@,
                        i as int + 1,
                        kind as int,
                    ));
                }
                i = i + 1;
            },
        }
    }
    proof {
        assert(nat_line_scan(line@, i as int, kind as int) =~= Seq::<Seq<char>>::empty());
        assert(line_refs(Seq::<Seq<char>>::empty(), ln as int, m) =~= Seq::<CrossRefV>::empty());
        assert(out.deep_view() =~= out.deep_view() + Seq::<CrossRefV>::empty());
        assert(base + line_refs(nat_line_scan(line@, 0, kind as int), ln as int, m)
            =~= out.deep_view());
    }
}

fn collect_xml(lines: &Vec<Vec<char>>, out: &mut Vec<CrossRef>)
    ensures
        final(out).deep_view() == old(out).deep_view() + xml_refs_from(lines.deep_view(), 0),
{
    let ghost base = out.deep_view();
    let ghost ldv = lines.deep_view();
    let mut idx: usize = 0;
    while idx < lines.len()
        invariant
            idx <= lines@.len(),
            ldv == lines.deep_view(),
            ldv.len() == lines@.len(),
            out.deep_view() + xml_refs_from(ldv, idx as int) == base + xml_refs_from(ldv, 0),
        decreases lines@.len() - idx,
    {
        let ghost prev = out.deep_view();
        proof {
            assert(lines@[idx as int]@ == ldv[idx as int]);
        }
        scan_line_xml(&lines[idx], idx + 1, out);
        proof {
            assert(xml_refs_from(ldv, idx as int) == line_refs(
                xml_line_scan(ldv[idx as int], 0),
                idx as int + 1,
                DetectionMethod::XmlCrossref,
            ) + xml_refs_from(ldv, idx as int + 1));
            assert(out.deep_view() + xml_refs_from(ldv, idx as int + 1) =~= prev + xml_refs_from(
                ldv,
                idx as int,
            ));
        }
        idx = idx + 1;
    }
    proof {
        assert(xml_refs_from(ldv, idx as int) =~= Seq::<CrossRefV>::empty());
        assert(out.deep_view() =~= out.deep_view() + Seq::<CrossRefV>::empty());
        assert(base + xml_refs_from(ldv, 0) =~= out.deep_view());
    }
}

fn collect_bt(lines: &Vec<Vec<char>>, out: &mut Vec<CrossRef>)
    ensures
        final(out).deep_view() == old(out).deep_view() + bt_refs_from(lines.deep_view(), 0),
{
    let ghost base = out.deep_view();
    let ghost ldv = lines.deep_view();
    let mut idx: usize = 0;
    while idx < lines.len()
        invariant
            idx <= lines@.len(),
            ldv == lines.deep_view(),
            ldv.len() == lines@.len(),
            out.deep_view() + bt_refs_from(ldv, idx as int) == base + bt_refs_from(ldv, 0),
        decreases lines@.len() - idx,
    {
        let ghost prev = out.deep_view();
        proof {
            assert(lines@[idx as int]@ == ldv[idx as int]);
        }
        scan_line_bt(&lines[idx], idx + 1, out);
        proof {
            assert(bt_refs_from(ldv, idx as int) == line_refs(
                bt_line_scan(ldv[idx as int], 0),
                idx as int + 1,
                DetectionMethod::BacktickContext,
            ) + bt_refs_from(ldv, idx as int + 1));
            assert(out.deep_view() + bt_refs_from(ldv, idx as int + 1) =~= prev + bt_refs_from(
                ldv,
                idx as int,
            ));
        }
        idx = idx + 1;
    }
    proof {
        assert(bt_refs_from(ldv, idx as int) =~= Seq::<CrossRefV>::empty());
        assert(out.deep_view() =~= out.deep_view() + Seq::<CrossRefV>::empty());
        assert(base + bt_refs_from(ldv, 0) =~= out.deep_view());
    }
}

fn has_pipe_exec(line: &Vec<char>) -> (r: bool)
    ensures
        r == has_pipe(line@),
{
    let mut k: usize = 0;
    while k < line.len()
        invariant
            k <= line@.len(),
            forall|m: int| 0 <= m < k ==> line@[m] != '|',
        decreases line@.len() - k,
    {
        if line[k] == '|' {
            return true;
        }
        k = k + 1;
    }
    false
}

fn heading_hit_exec(line: &Vec<char>) -> (r: bool)
    ensures
        r == heading_hit(line@),
{
    let p_related = chars_vec("related skill");
    let p_integration = chars_vec("integration");
    ci_contains_exec(line, &p_related) || ci_contains_exec(line, &p_integration)
}

fn collect_table(lines: &Vec<Vec<char>>, out: &mut Vec<CrossRef>)
    ensures
        final(out).deep_view() == old(out).deep_view() + table_refs_from(
            lines.deep_view(),
            0,
            false,
        ),
{
    let ghost base = out.deep_view();
    let ghost ldv = lines.deep_view();
    let mut idx: usize = 0;
    let mut in_sec: bool = false;
    while idx < lines.len()
        invariant
            idx <= lines@.len(),
            ldv == lines.deep_view(),
            ldv.len() == lines@.len(),
            out.deep_view() + table_refs_from(ldv, idx as int, in_sec) == base + table_refs_from(
                ldv,
                0,
                false,
            ),
        decreases lines@.len() - idx,
    {
        let ghost prev = out.deep_view();
        proof {
            assert(lines@[idx as int]@ == ldv[idx as int]);
        }
        let line = &lines[idx];
        if heading_hit_exec(line) {
            proof {
                assert(table_refs_from(ldv, idx as int, in_sec) == table_refs_from(
                    ldv,
                    idx as int + 1,
                    true,
                ));
            }
            in_sec = true;
        } else {
            let sec: bool = if line.len() > 0 && line[0] == '#' && in_sec {
                false
            } else {
                in_sec
            };
            if sec && has_pipe_exec(line) {
                scan_line_tick(line, idx + 1, out);
                proof {
                    assert(table_refs_from(ldv, idx as int, in_sec) == line_refs(
                        tick_line_scan(ldv[idx as int], 0),
                        idx as int + 1,
                        DetectionMethod::RelatedTable,
                    ) + table_refs_from(ldv, idx as int + 1, sec));
                    assert(out.deep_view() + table_refs_from(ldv, idx as int + 1, sec) =~= prev
                        + table_refs_from(ldv, idx as int, in_sec));
                }
            } else {
                proof {
                    assert(table_refs_from(ldv, idx as int, in_sec) == table_refs_from(
                        ldv,
                        idx as int + 1,
                        sec,
                    ));
                }
            }
            in_sec = sec;
        }
        idx = idx + 1;
    }
    proof {
        assert(table_refs_from(ldv, idx as int, in_sec) =~= Seq::<CrossRefV>::empty());
        assert(out.deep_view() =~= out.deep_view() + Seq::<CrossRefV>::empty());
        assert(base + table_refs_from(ldv, 0, false) =~= out.deep_view());
    }
}

fn collect_nat(lines: &Vec<Vec<char>>, kind: u8, out: &mut Vec<CrossRef>)
    requires
        kind < 4,
    ensures
        final(out).deep_view() == old(out).deep_view() + nat_refs_from(
            lines.deep_view(),
            0,
            kind as int,
        ),
{
    let ghost base = out.deep_view();
    let ghost ldv = lines.deep_view();
    let mut idx: usize = 0;
    while idx < lines.len()
        invariant
            idx <= lines@.len(),
            kind < 4,
            ldv == lines.deep_view(),
            ldv.len() == lines@.len(),
            out.deep_view() + nat_refs_from(ldv, idx as int, kind as int) == base + nat_refs_from(
                ldv,
                0,
                kind as int,
            ),
        decreases lines@.len() - idx,
    {
        let ghost prev = out.deep_view();
        proof {
            assert(lines@[idx as int]@ == ldv[idx as int]);
        }
        scan_line_nat(&lines[idx], idx + 1, kind, out);
        proof {
            assert(nat_refs_from(ldv, idx as int, kind as int) == line_refs(
                nat_line_scan(ldv[idx as int], 0, kind as int),
                idx as int + 1,
                DetectionMethod::NaturalLanguage,
            ) + nat_refs_from(ldv, idx as int + 1, kind as int));
            assert(out.deep_view() + nat_refs_from(ldv, idx as int + 1, kind as int) =~= prev
                + nat_refs_from(ldv, idx as int, kind as int));
        }
        idx = idx + 1;
    }
    proof {
        assert(nat_refs_from(ldv, idx as int, kind as int) =~= Seq::<CrossRefV>::empty());
        assert(out.deep_view() =~= out.deep_view() + Seq::<CrossRefV>::empty());
        assert(base + nat_refs_from(ldv, 0, kind as int) =~= out.deep_view());
    }
}

/// Extracts every skill reference from body content.
///
/// The four heuristics run independently and their results are concatenated
/// in a fixed order; entries naming `skill_name` itself are dropped. No
/// other filtering happens here: dangling targets stay in, for the callers
/// that check them.
pub fn extract_references(content: &str, skill_name: &str) -> (r: Vec<CrossRef>)
    ensures
        r.deep_view() == spec_extract(content@, skill_name@),
{
    let cv = chars_vec(content);
    let lines = split_lines(&cv);
    let mut all: Vec<CrossRef> = Vec::new();
    collect_xml(&lines, &mut all);
    collect_bt(&lines, &mut all);
    collect_table(&lines, &mut all);
    collect_nat(&lines, 0, &mut all);
    collect_nat(&lines, 1, &mut all);
    collect_nat(&lines, 2, &mut all);
    collect_nat(&lines, 3, &mut all);
    proof {
        assert(all.deep_view() =~= spec_all_refs(content@));
    }
    let ghost adv = all.deep_view();
    let ghost pred = keep_pred(skill_name@);
    let mut r: Vec<CrossRef> = Vec::new();
    let mut k: usize = 0;
    proof {
        reveal_with_fuel(Seq::<CrossRefV>::filter, 1);
        assert(adv.take(0) =~= Seq::<CrossRefV>::empty());
        assert(Seq::<CrossRefV>::empty().filter(pred) =~= Seq::<CrossRefV>::empty());
    }
    while k < all.len()
        invariant
            k <= all@.len(),
            adv == all.deep_view(),
            adv.len() == all@.len(),
            pred == keep_pred(skill_name@),
            r.deep_view() == adv.take(k as int).filter(pred),
        decreases all@.len() - k,
    {
        let cr = &all[k];
        let ghost x = adv[k as int];
        proof {
            assert(x == all@[k as int]@);
        }
        let keep = !str_eq(cr.target.as_str(), skill_name);
        let ghost prev = r.deep_view();
        if keep {
            r.push(CrossRef { target: cr.target.clone(), line: cr.line, method: cr.method });
            proof {
                assert(r.deep_view() =~~= prev.push(x));
            }
        }
        proof {
            reveal_with_fuel(Seq::<CrossRefV>::filter, 2);
            let t = adv.take(k as int + 1);
            assert(t.drop_last() =~= adv.take(k as int));
            assert(t.last() == x);
            assert(t.filter(pred) == if pred(x) {
                t.drop_last().filter(pred).push(x)
            } else {
                t.drop_last().filter(pred)
            });
            assert(pred(x) == keep);
            assert(r.deep_view() == t.filter(pred));
        }
        k = k + 1;
    }
    proof {
        assert(adv.take(adv.len() as int) =~= adv);
    }
    r
}

/// The distinct targets of a reference list, each kept at its first
/// occurrence.
pub open spec fn spec_target_list(refs: Seq<CrossRefV>) -> Seq<Seq<char>>
    decreases refs.len(),
{
    if refs.len() == 0 {
        Seq::empty()
    } else {
        let pre = spec_target_list(refs.drop_last());
        if pre.contains(refs.last().target) {
            pre
        } else {
            pre.push(refs.last().target)
        }
    }
}

/// Builds, for each named skill, the set of names its references point at,
/// keeping the pairing and the order of the input.
pub fn build_reference_map(skills: &Vec<(String, Vec<CrossRef>)>) -> (r: Vec<(String, Vec<String>)>)
    ensures
        r@.len() == skills@.len(),
        forall|i: int|
            0 <= i < r@.len() ==> (#[trigger] r.deep_view()[i]).0 == skills.deep_view()[i].0
                && r.deep_view()[i].1 == spec_target_list(skills.deep_view()[i].1),
{
    let mut r: Vec<(String, Vec<String>)> = Vec::new();
    let mut i: usize = 0;
    while i < skills.len()
        invariant
            i <= skills@.len(),
            r@.len() == i,
            forall|m: int|
                0 <= m < i as int ==> (#[trigger] r.deep_view()[m]).0 == skills.deep_view()[m].0
                    && r.deep_view()[m].1 == spec_target_list(skills.deep_view()[m].1),
        decreases skills@.len() - i,
    {
        let pair = &skills[i];
        let ghost refsv = skills.deep_view()[i as int].1;
        proof {
            assert(refsv == pair.1.deep_view());
        }
        let mut targets: Vec<String> = Vec::new();
        let mut j: usize = 0;
        proof {
            assert(refsv.take(0) =~= Seq::<CrossRefV>::empty());
            assert(targets.deep_view() =~= spec_target_list(refsv.take(0)));
        }
        while j < pair.1.len()
            invariant
                j <= pair.1@.len(),
                refsv == pair.1.deep_view(),
                refsv.len() == pair.1@.len(),
                targets.deep_view() == spec_target_list(refsv.take(j as int)),
            decreases pair.1@.len() - j,
        {
            let tgt = &pair.1[j].target;
            let ghost x = refsv[j as int];
            proof {
                assert(x == pair.1@[j as int]@);
            }
            let ghost prev = targets.deep_view();
            let seen = crate::text::vec_contains_string(&targets, tgt.as_str());
            if !seen {
                targets.push(tgt.clone());
                proof {
                    assert(targets.deep_view() =~~= prev.push(x.target));
                }
            }
            proof {
                let t = refsv.take(j as int + 1);
                assert(t.drop_last() =~= refsv.take(j as int));
                assert(t.last() == x);
                assert(targets.deep_view() == spec_target_list(t));
            }
            j = j + 1;
        }
        proof {
            assert(refsv.take(refsv.len() as int) =~= refsv);
        }
        let ghost prevr = r.deep_view();
        r.push((pair.0.clone(), targets));
        proof {
            assert(r.deep_view() =~~= prevr.push(
                (skills.deep_view()[i as int].0, spec_target_list(refsv)),
            ));
        }
        i = i + 1;
    }
    r
}


/// Law: the extractor never returns a reference whose target equals the
/// owner it scanned for.
pub proof fn lemma_extract_never_self(content: Seq<char>, owner: Seq<char>, i: int)
    requires
        0 <= i < spec_extract(content, owner).len(),
    ensures
        spec_extract(content, owner)[i].target != owner,
{
    spec_all_refs(content).lemma_filter_pred(keep_pred(owner), i);
}

// ---------------------------------------------------------------------------
// Queries over a reference map
// ---------------------------------------------------------------------------

/// The first entry made for the named source, or -1.
pub open spec fn find_source(
    cr: Seq<(Seq<char>, Seq<CrossRefV>)>,
    name: Seq<char>,
    i: int,
) -> int
    decreases cr.len() - i when 0 <= i
{
    if i >= cr.len() {
        -1
    } else if cr[i].0 == name {
        i
    } else {
        find_source(cr, name, i + 1)
    }
}

pub open spec fn known_targets_of(
    refs: Seq<CrossRefV>,
    known: Seq<Seq<char>>,
    j: int,
) -> Seq<Seq<char>>
    decreases refs.len() - j when 0 <= j
{
    if j >= refs.len() {
        Seq::empty()
    } else {
        (if known.contains(refs[j].target) {
            seq![refs[j].target]
        } else {
            Seq::empty()
        }) + known_targets_of(refs, known, j + 1)
    }
}

/// What the named skill references, kept to known names, in reference
/// order.
pub open spec fn spec_outgoing_targets(
    cr: Seq<(Seq<char>, Seq<CrossRefV>)>,
    name: Seq<char>,
    known: Seq<Seq<char>>,
) -> Seq<Seq<char>> {
    let f = find_source(cr, name, 0);
    if f < 0 {
        Seq::empty()
    } else {
        known_targets_of(cr[f].1, known, 0)
    }
}

/// The known targets the named skill references, in reference order.
pub fn outgoing_targets(
    crossrefs: &Vec<(String, Vec<CrossRef>)>,
    name: &str,
    known: &Vec<String>,
) -> (r: Vec<String>)
    ensures
        r.deep_view() == spec_outgoing_targets(crossrefs.deep_view(), name@, known.deep_view()),
{
    let ghost crv = crossrefs.deep_view();
    let ghost kn = known.deep_view();
    // find the source's entry
    let n = crossrefs.len();
    let mut f: usize = 0;
    while f < n && !crate::text::str_eq(crossrefs[f].0.as_str(), name)
        invariant
            f <= n,
            n == crossrefs@.len(),
            crv == crossrefs.deep_view(),
            crv.len() == crossrefs@.len(),
            forall|m: int| 0 <= m < f ==> (#[trigger] crv[m]).0 != name@,
        decreases n - f,
    {
        proof {
            assert(crv[f as int] == crossrefs@[f as int].deep_view());
        }
        f = f + 1;
    }
    proof {
        if f < n {
            assert(crv[f as int] == crossrefs@[f as int].deep_view());
        }
        lemma_find_source_char(crv, name@, f as int);
    }
    let mut r: Vec<String> = Vec::new();
    if f >= n {
        proof {
            assert(r.deep_view() =~= spec_outgoing_targets(crv, name@, kn));
        }
        return r;
    }
    let refs = &crossrefs[f].1;
    let ghost rv = crv[f as int].1;
    proof {
        assert(crv[f as int] == crossrefs@[f as int].deep_view());
        assert(rv == refs.deep_view());
    }
    let mut j: usize = 0;
    while j < refs.len()
        invariant
            j <= refs@.len(),
            kn == known.deep_view(),
            rv == refs.deep_view(),
            rv.len() == refs@.len(),
            r.deep_view() + known_targets_of(rv, kn, j as int) == known_targets_of(rv, kn, 0),
        decreases refs@.len() - j,
    {
        let cr = &refs[j];
        let ghost x = rv[j as int];
        proof {
            assert(x == refs@[j as int]@);
        }
        let ghost prev = r.deep_view();
        if vec_contains_string(known, cr.target.as_str()) {
            r.push(cr.target.clone());
            proof {
                assert(r.deep_view() =~~= prev.push(x.target));
            }
        }
        proof {
            assert(r.deep_view() + known_targets_of(rv, kn, j as int + 1) =~= prev
                + known_targets_of(rv, kn, j as int));
        }
        j = j + 1;
    }
    proof {
        assert(known_targets_of(rv, kn, rv.len() as int) =~= Seq::<Seq<char>>::empty());
        assert(r.deep_view() + Seq::<Seq<char>>::empty() =~= r.deep_view());
    }
    r
}

proof fn lemma_find_source_char(cr: Seq<(Seq<char>, Seq<CrossRefV>)>, name: Seq<char>, j: int)
    requires
        0 <= j <= cr.len(),
        forall|m: int| 0 <= m < j ==> (#[trigger] cr[m]).0 != name,
        j < cr.len() ==> cr[j].0 == name,
    ensures
        find_source(cr, name, 0) == if j < cr.len() {
            j
        } else {
            -1
        },
{
    lemma_find_source_char_from(cr, name, 0, j);
}

proof fn lemma_find_source_char_from(
    cr: Seq<(Seq<char>, Seq<CrossRefV>)>,
    name: Seq<char>,
    i: int,
    j: int,
)
    requires
        0 <= i <= j <= cr.len(),
        forall|m: int| i <= m < j ==> (#[trigger] cr[m]).0 != name,
        j < cr.len() ==> cr[j].0 == name,
    ensures
        find_source(cr, name, i) == if j < cr.len() {
            j
        } else {
            -1
        },
    decreases j - i,
{
    if i < j {
        lemma_find_source_char_from(cr, name, i + 1, j);
    }
}

/// Whether any reference in the list points at the name.
pub open spec fn refs_has_target(refs: Seq<CrossRefV>, name: Seq<char>) -> bool {
    exists|j: int| 0 <= j < refs.len() && (#[trigger] refs[j]).target == name
}

pub open spec fn incoming_from(
    cr: Seq<(Seq<char>, Seq<CrossRefV>)>,
    name: Seq<char>,
    i: int,
) -> Seq<Seq<char>>
    decreases cr.len() - i when 0 <= i
{
    if i >= cr.len() {
        Seq::empty()
    } else {
        (if refs_has_target(cr[i].1, name) {
            seq![cr[i].0]
        } else {
            Seq::empty()
        }) + incoming_from(cr, name, i + 1)
    }
}

/// Every source that references the named skill, in input order.
pub open spec fn spec_incoming_sources(
    cr: Seq<(Seq<char>, Seq<CrossRefV>)>,
    name: Seq<char>,
) -> Seq<Seq<char>> {
    incoming_from(cr, name, 0)
}

fn refs_has_target_exec(refs: &Vec<CrossRef>, name: &str) -> (r: bool)
    ensures
        r == refs_has_target(refs.deep_view(), name@),
{
    let mut j: usize = 0;
    while j < refs.len()
        invariant
            j <= refs@.len(),
            forall|m: int| 0 <= m < j ==> (#[trigger] refs.deep_view()[m]).target != name@,
        decreases refs@.len() - j,
    {
        if str_eq(refs[j].target.as_str(), name) {
            proof {
                assert(refs.deep_view()[j as int].target == name@);
            }
            return true;
        }
        proof {
            assert(refs.deep_view()[j as int] == refs@[j as int]@);
        }
        j = j + 1;
    }
    false
}

/// Lists the sources that reference the named skill.
pub fn incoming_sources(crossrefs: &Vec<(String, Vec<CrossRef>)>, name: &str) -> (r: Vec<String>)
    ensures
        r.deep_view() == spec_incoming_sources(crossrefs.deep_view(), name@),
{
    let ghost crv = crossrefs.deep_view();
    let mut r: Vec<String> = Vec::new();
    let mut i: usize = 0;
    while i < crossrefs.len()
        invariant
            i <= crossrefs@.len(),
            crv == crossrefs.deep_view(),
            crv.len() == crossrefs@.len(),
            r.deep_view() + incoming_from(crv, name@, i as int) == incoming_from(crv, name@, 0),
        decreases crossrefs@.len() - i,
    {
        let pair = &crossrefs[i];
        let ghost pv = crv[i as int];
        proof {
            assert(pv == crossrefs@[i as int].deep_view());
        }
        let ghost prev = r.deep_view();
        if refs_has_target_exec(&pair.1, name) {
            r.push(pair.0.clone());
            proof {
                assert(r.deep_view() =~~= prev.push(pv.0));
            }
        }
        proof {
            assert(r.deep_view() + incoming_from(crv, name@, i as int + 1) =~= prev
                + incoming_from(crv, name@, i as int));
        }
        i = i + 1;
    }
    proof {
        assert(incoming_from(crv, name@, i as int) =~= Seq::<Seq<char>>::empty());
        assert(r.deep_view() + Seq::<Seq<char>>::empty() =~= r.deep_view());
    }
    r
}

pub open spec fn add_unknown(
    acc: Seq<Seq<char>>,
    refs: Seq<CrossRefV>,
    known: Seq<Seq<char>>,
    j: int,
) -> Seq<Seq<char>>
    decreases refs.len() - j when 0 <= j
{
    if j >= refs.len() {
        acc
    } else {
        add_unknown(
            if known.contains(refs[j].target) {
                acc
            } else {
                crate::graph::push_unique(acc, refs[j].target)
            },
            refs,
            known,
            j + 1,
        )
    }
}

pub open spec fn unknown_from(
    cr: Seq<(Seq<char>, Seq<CrossRefV>)>,
    known: Seq<Seq<char>>,
    i: int,
    acc: Seq<Seq<char>>,
) -> Seq<Seq<char>>
    decreases cr.len() - i when 0 <= i
{
    if i >= cr.len() {
        acc
    } else {
        unknown_from(cr, known, i + 1, add_unknown(acc, cr[i].1, known, 0))
    }
}

/// The referenced targets that are not known skills: each once, sorted.
pub open spec fn spec_missing_targets(
    cr: Seq<(Seq<char>, Seq<CrossRefV>)>,
    known: Seq<Seq<char>>,
) -> Seq<Seq<char>> {
    crate::text::sort_spec(unknown_from(cr, known, 0, Seq::empty()))
}

/// Lists the referenced targets that are not known skills, each once,
/// sorted by name.
pub fn missing_targets(
    crossrefs: &Vec<(String, Vec<CrossRef>)>,
    known: &Vec<String>,
) -> (r: Vec<String>)
    ensures
        r.deep_view() == spec_missing_targets(crossrefs.deep_view(), known.deep_view()),
{
    let ghost crv = crossrefs.deep_view();
    let ghost kn = known.deep_view();
    let mut acc: Vec<String> = Vec::new();
    proof {
        assert(acc.deep_view() =~= Seq::<Seq<char>>::empty());
    }
    let mut i: usize = 0;
    while i < crossrefs.len()
        invariant
            i <= crossrefs@.len(),
            crv == crossrefs.deep_view(),
            crv.len() == crossrefs@.len(),
            kn == known.deep_view(),
            unknown_from(crv, kn, i as int, acc.deep_view()) == unknown_from(
                crv,
                kn,
                0,
                Seq::empty(),
            ),
        decreases crossrefs@.len() - i,
    {
        let pair = &crossrefs[i];
        let ghost rv = crv[i as int].1;
        proof {
            assert(crv[i as int] == crossrefs@[i as int].deep_view());
            assert(rv == pair.1.deep_view());
        }
        let ghost acc0 = acc.deep_view();
        let mut j: usize = 0;
        while j < pair.1.len()
            invariant
                j <= pair.1@.len(),
                kn == known.deep_view(),
                rv == pair.1.deep_view(),
                rv.len() == pair.1@.len(),
                add_unknown(acc.deep_view(), rv, kn, j as int) == add_unknown(acc0, rv, kn, 0),
            decreases pair.1@.len() - j,
        {
            let cr = &pair.1[j];
            let ghost x = rv[j as int];
            proof {
                assert(x == pair.1@[j as int]@);
            }
            let ghost prev = acc.deep_view();
            if !vec_contains_string(known, cr.target.as_str()) {
                if !vec_contains_string(&acc, cr.target.as_str()) {
                    acc.push(cr.target.clone());
                    proof {
                        assert(acc.deep_view() =~~= prev.push(x.target));
                        assert(acc.deep_view() == crate::graph::push_unique(prev, x.target));
                    }
                } else {
                    proof {
                        assert(acc.deep_view() == crate::graph::push_unique(prev, x.target));
                    }
                }
            }
            proof {
                assert(add_unknown(acc.deep_view(), rv, kn, j as int + 1) == add_unknown(
                    prev,
                    rv,
                    kn,
                    j as int,
                ));
            }
            j = j + 1;
        }
        proof {
            assert(add_unknown(acc.deep_view(), rv, kn, rv.len() as int) == acc.deep_view());
            assert(unknown_from(crv, kn, i as int, acc0) == unknown_from(
                crv,
                kn,
                i as int + 1,
                add_unknown(acc0, rv, kn, 0),
            ));
        }
        i = i + 1;
    }
    proof {
        assert(unknown_from(crv, kn, crv.len() as int, acc.deep_view()) == acc.deep_view());
    }
    crate::text::sort_names(acc)
}
} // verus!
