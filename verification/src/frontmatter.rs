//! Skill metadata: the frontmatter block of a skill document, its validation
//! rules, and the extraction of the metadata text between `---` delimiters.
//! Turning that text into field values is YAML work and stays with the
//! callers; the rules over the resulting fields live here.

use vstd::prelude::*;

use crate::crossref::slug_ok;
use crate::text::{chars_vec, is_trim_ws, push_str, spec_lines, split_lines, str_eq,
    trim_ws_char};
use vstd::string::StringExecFns;
use vstd::string::StrSliceExecFns;
use vstd::string::StringSliceAdditionalSpecFns;

verus! {

/// One skill's place in one named pipeline.
#[derive(Debug, Clone)]
pub struct PipelineStage {
    /// The stage label.
    pub stage: String,
    /// The ordering key within the pipeline.
    pub order: u32,
    /// Names of skills this one must come after.
    pub after: Option<Vec<String>>,
    /// Names of skills this one must come before.
    pub before: Option<Vec<String>>,
}

/// The mathematical value of a [`PipelineStage`].
pub ghost struct PipelineStageV {
    pub stage: Seq<char>,
    pub order: int,
    pub after: Option<Seq<Seq<char>>>,
    pub before: Option<Seq<Seq<char>>>,
}

impl View for PipelineStage {
    type V = PipelineStageV;

    open spec fn view(&self) -> PipelineStageV {
        PipelineStageV {
            stage: self.stage@,
            order: self.order as int,
            after: self.after.deep_view(),
            before: self.before.deep_view(),
        }
    }
}

impl DeepView for PipelineStage {
    type V = PipelineStageV;

    open spec fn deep_view(&self) -> PipelineStageV {
        self.view()
    }
}

/// The metadata block of a skill document. Only `name` and `description`
/// are required; the rest mirror the optional fields the file format knows.
#[derive(Debug, Clone)]
pub struct Frontmatter {
    /// Skill identifier; must match the directory name.
    pub name: String,
    /// What the skill does and when to use it.
    pub description: String,
    pub disable_model_invocation: Option<bool>,
    pub user_invocable: Option<bool>,
    pub allowed_tools: Option<String>,
    pub context: Option<String>,
    pub agent: Option<String>,
    pub model: Option<String>,
    pub argument_hint: Option<String>,
    pub license: Option<String>,
    pub compatibility: Option<String>,
    pub metadata: Option<Vec<(String, String)>>,
    /// Free-form classification tags.
    pub tags: Option<Vec<String>>,
    /// Pipeline memberships, keyed by pipeline name.
    pub pipeline: Option<Vec<(String, PipelineStage)>>,
}

/// The mathematical value of a [`Frontmatter`].
pub ghost struct FrontmatterV {
    pub name: Seq<char>,
    pub description: Seq<char>,
    pub disable_model_invocation: Option<bool>,
    pub user_invocable: Option<bool>,
    pub allowed_tools: Option<Seq<char>>,
    pub context: Option<Seq<char>>,
    pub agent: Option<Seq<char>>,
    pub model: Option<Seq<char>>,
    pub argument_hint: Option<Seq<char>>,
    pub license: Option<Seq<char>>,
    pub compatibility: Option<Seq<char>>,
    pub metadata: Option<Seq<(Seq<char>, Seq<char>)>>,
    pub tags: Option<Seq<Seq<char>>>,
    pub pipeline: Option<Seq<(Seq<char>, PipelineStageV)>>,
}

impl View for Frontmatter {
    type V = FrontmatterV;

    open spec fn view(&self) -> FrontmatterV {
        FrontmatterV {
            name: self.name@,
            description: self.description@,
            disable_model_invocation: self.disable_model_invocation,
            user_invocable: self.user_invocable,
            allowed_tools: self.allowed_tools.deep_view(),
            context: self.context.deep_view(),
            agent: self.agent.deep_view(),
            model: self.model.deep_view(),
            argument_hint: self.argument_hint.deep_view(),
            license: self.license.deep_view(),
            compatibility: self.compatibility.deep_view(),
            metadata: self.metadata.deep_view(),
            tags: self.tags.deep_view(),
            pipeline: self.pipeline.deep_view(),
        }
    }
}

impl DeepView for Frontmatter {
    type V = FrontmatterV;

    open spec fn deep_view(&self) -> FrontmatterV {
        self.view()
    }
}

/// What can go wrong with a frontmatter block.
#[derive(Debug, Clone)]
pub enum FrontmatterError {
    /// The document holds no pair of `---` delimiter lines.
    MissingDelimiters,
    /// The metadata text is not valid YAML; carries the parser's words.
    InvalidYaml(String),
    /// A required field is absent; carries the field name.
    MissingField(String),
    /// The name does not have the slug shape; carries the name.
    InvalidNamePattern(String),
    /// The name's length in bytes, which must be 1 through 64.
    InvalidNameLength(usize),
    /// The trimmed description's length in bytes, which must be 1 through
    /// 1024.
    InvalidDescriptionLength(usize),
    /// The name does not match the directory name.
    NameMismatch { expected: String, found: String },
}

/// The mathematical value of a [`FrontmatterError`].
pub ghost enum FrontmatterErrorV {
    MissingDelimiters,
    InvalidYaml(Seq<char>),
    MissingField(Seq<char>),
    InvalidNamePattern(Seq<char>),
    InvalidNameLength(int),
    InvalidDescriptionLength(int),
    NameMismatch { expected: Seq<char>, found: Seq<char> },
}

impl View for FrontmatterError {
    type V = FrontmatterErrorV;

    open spec fn view(&self) -> FrontmatterErrorV {
        match self {
            FrontmatterError::MissingDelimiters => FrontmatterErrorV::MissingDelimiters,
            FrontmatterError::InvalidYaml(s) => FrontmatterErrorV::InvalidYaml(s@),
            FrontmatterError::MissingField(s) => FrontmatterErrorV::MissingField(s@),
            FrontmatterError::InvalidNamePattern(s) => FrontmatterErrorV::InvalidNamePattern(s@),
            FrontmatterError::InvalidNameLength(n) => FrontmatterErrorV::InvalidNameLength(
                *n as int,
            ),
            FrontmatterError::InvalidDescriptionLength(n) => {
                FrontmatterErrorV::InvalidDescriptionLength(*n as int)
            },
            FrontmatterError::NameMismatch { expected, found } => {
                FrontmatterErrorV::NameMismatch { expected: expected@, found: found@ }
            },
        }
    }
}

impl DeepView for FrontmatterError {
    type V = FrontmatterErrorV;

    open spec fn deep_view(&self) -> FrontmatterErrorV {
        self.view()
    }
}

// ---------------------------------------------------------------------------
// Validation
// ---------------------------------------------------------------------------

/// The name rule: a slug of 1 through 64 bytes. The length is checked
/// first, so an overlong name reports its length, not its shape.
pub open spec fn spec_validate_name(name: Seq<char>) -> Result<(), FrontmatterErrorV> {
    let blen = vstd::utf8::encode_utf8(name).len() as int;
    if !(1 <= blen <= 64) {
        Err(FrontmatterErrorV::InvalidNameLength(blen))
    } else if !slug_ok(name) {
        Err(FrontmatterErrorV::InvalidNamePattern(name))
    } else {
        Ok(())
    }
}

/// The description rule: 1 through 1024 bytes once whitespace is trimmed
/// from both ends.
pub open spec fn spec_validate_description(desc: Seq<char>) -> Result<(), FrontmatterErrorV> {
    let tlen = vstd::utf8::encode_utf8(trim_chars(desc)).len() as int;
    if !(1 <= tlen <= 1024) {
        Err(FrontmatterErrorV::InvalidDescriptionLength(tlen))
    } else {
        Ok(())
    }
}

/// Both field rules, the name's first.
pub open spec fn spec_validate(fm: FrontmatterV) -> Result<(), FrontmatterErrorV> {
    match spec_validate_name(fm.name) {
        Err(e) => Err(e),
        Ok(_) => spec_validate_description(fm.description),
    }
}

impl Frontmatter {
    /// Checks the name and description rules.
    pub fn validate(&self) -> (r: Result<(), FrontmatterError>)
        ensures
            match r {
                Ok(_) => spec_validate(self@) is Ok,
                Err(e) => spec_validate(self@) == Err::<(), FrontmatterErrorV>(e@),
            },
    {
        match self.validate_name() {
            Err(e) => Err(e),
            Ok(_) => self.validate_description(),
        }
    }

    fn validate_name(&self) -> (r: Result<(), FrontmatterError>)
        ensures
            match r {
                Ok(_) => spec_validate_name(self.name@) is Ok,
                Err(e) => spec_validate_name(self.name@) == Err::<(), FrontmatterErrorV>(e@),
            },
    {
        let nb = self.name.as_str().as_bytes_vec();
        let blen = nb.len();
        proof {
            assert(blen as int == vstd::utf8::encode_utf8(self.name@).len() as int);
        }
        if blen < 1 || blen > 64 {
            return Err(FrontmatterError::InvalidNameLength(blen));
        }
        let cv = chars_vec(self.name.as_str());
        let ok = crate::crossref::check_slug_range(&cv, 0, cv.len());
        proof {
            assert(cv@.subrange(0, cv@.len() as int) =~= self.name@);
        }
        if !ok {
            return Err(FrontmatterError::InvalidNamePattern(self.name.clone()));
        }
        Ok(())
    }

    fn validate_description(&self) -> (r: Result<(), FrontmatterError>)
        ensures
            match r {
                Ok(_) => spec_validate_description(self.description@) is Ok,
                Err(e) => spec_validate_description(self.description@) == Err::<
                    (),
                    FrontmatterErrorV,
                >(e@),
            },
    {
        let cv = chars_vec(self.description.as_str());
        let n = cv.len();
        let mut lo: usize = 0;
        while lo < n && trim_ws_char(cv[lo])
            invariant
                lo <= n,
                n == cv@.len(),
                cv@ == self.description@,
                forall|k: int| 0 <= k < lo ==> is_trim_ws(cv@[k]),
            decreases n - lo,
        {
            lo = lo + 1;
        }
        proof {
            lemma_char_ws_from_char(self.description@, 0, lo as int);
        }
        let mut hi: usize = n;
        while hi > lo && trim_ws_char(cv[hi - 1])
            invariant
                lo <= hi <= n,
                n == cv@.len(),
                cv@ == self.description@,
                forall|k: int| hi <= k < n ==> is_trim_ws(cv@[k]),
            decreases hi,
        {
            hi = hi - 1;
        }
        let trimmed = crate::text::chars_to_string(&cv, lo, hi);
        let bytes = trimmed.as_str().as_bytes_vec();
        let tlen = bytes.len();
        proof {
            if hi > lo {
                lemma_char_ws_back_char(self.description@, n as int, hi as int);
                assert(trimmed@ =~= trim_chars(self.description@));
            } else {
                if lo < n {
                    assert(is_trim_ws(self.description@[lo as int]));
                    assert(false);
                }
                lemma_char_ws_back_char(self.description@, n as int, 0);
                assert(trim_chars(self.description@) =~= Seq::<char>::empty());
                assert(trimmed@ =~= trim_chars(self.description@));
                assert(vstd::utf8::encode_utf8(Seq::<char>::empty()).len() == 0);
            }
            assert(tlen as int == vstd::utf8::encode_utf8(trim_chars(self.description@)).len());
        }
        if tlen < 1 || tlen > 1024 {
            return Err(FrontmatterError::InvalidDescriptionLength(tlen));
        }
        Ok(())
    }

    /// Checks that the declared name matches the directory name.
    pub fn validate_directory_name(&self, dir_name: &str) -> (r: Result<(), FrontmatterError>)
        ensures
            match r {
                Ok(_) => self.name@ == dir_name@,
                Err(e) => self.name@ != dir_name@ && e@ == (FrontmatterErrorV::NameMismatch {
                    expected: dir_name@,
                    found: self.name@,
                }),
            },
    {
        if str_eq(self.name.as_str(), dir_name) {
            Ok(())
        } else {
            Err(
                FrontmatterError::NameMismatch {
                    expected: String::from_str(dir_name),
                    found: self.name.clone(),
                },
            )
        }
    }
}

// ---------------------------------------------------------------------------
// Delimiter extraction
// ---------------------------------------------------------------------------

/// A delimiter line: `---` once ASCII whitespace is trimmed.
pub open spec fn is_delim_line(l: Seq<char>) -> bool {
    trim_chars(l) == "---"@
}

pub open spec fn char_ws_from(l: Seq<char>, i: int) -> int
    decreases l.len() - i when 0 <= i
{
    if i >= l.len() {
        i
    } else if !is_trim_ws(l[i]) {
        i
    } else {
        char_ws_from(l, i + 1)
    }
}

pub open spec fn char_ws_back(l: Seq<char>, i: int) -> int
    decreases i,
{
    if i <= 0 {
        0
    } else if !is_trim_ws(l[i - 1]) {
        i
    } else {
        char_ws_back(l, i - 1)
    }
}

/// Whitespace trimmed from both ends, as `str::trim` trims.
pub open spec fn trim_chars(l: Seq<char>) -> Seq<char> {
    let lo = char_ws_from(l, 0);
    let hi = char_ws_back(l, l.len() as int);
    if hi > lo {
        l.subrange(lo, hi)
    } else {
        Seq::empty()
    }
}

/// The first delimiter line at or after `from`, or the line count when none
/// follows.
pub open spec fn first_delim(lines: Seq<Seq<char>>, from: int) -> int
    decreases lines.len() - from when 0 <= from
{
    if from >= lines.len() {
        from
    } else if is_delim_line(lines[from]) {
        from
    } else {
        first_delim(lines, from + 1)
    }
}

proof fn lemma_first_delim_bounds(lines: Seq<Seq<char>>, from: int)
    requires
        0 <= from <= lines.len(),
    ensures
        from <= first_delim(lines, from) <= lines.len(),
        forall|k: int| from <= k < first_delim(lines, from) ==> !is_delim_line(lines[k]),
        first_delim(lines, from) < lines.len() ==> is_delim_line(
            lines[first_delim(lines, from)],
        ),
    decreases lines.len() - from,
{
    if from < lines.len() && !is_delim_line(lines[from]) {
        lemma_first_delim_bounds(lines, from + 1);
    }
}

/// Lines joined with a line feed between them.
pub open spec fn join_lines(lines: Seq<Seq<char>>) -> Seq<char>
    decreases lines.len(),
{
    if lines.len() == 0 {
        Seq::empty()
    } else if lines.len() == 1 {
        lines[0]
    } else {
        join_lines(lines.drop_last()) + seq!['\n'] + lines.last()
    }
}

/// What extracting the metadata text yields: the lines strictly between the
/// first two delimiter lines, joined with line feeds; or the delimiter
/// error when fewer than two delimiter lines exist.
pub open spec fn spec_extract_yaml(content: Seq<char>) -> Result<Seq<char>, FrontmatterErrorV> {
    let lines = spec_lines(content);
    let s = first_delim(lines, 0);
    if s >= lines.len() {
        Err(FrontmatterErrorV::MissingDelimiters)
    } else {
        let e = first_delim(lines, s + 1);
        if e >= lines.len() {
            Err(FrontmatterErrorV::MissingDelimiters)
        } else {
            Ok(join_lines(lines.subrange(s + 1, e)))
        }
    }
}

fn is_delim_line_exec(line: &Vec<char>) -> (r: bool)
    ensures
        r == is_delim_line(line@),
{
    let n = line.len();
    let mut lo: usize = 0;
    while lo < n && trim_ws_char(line[lo])
        invariant
            lo <= n,
            n == line@.len(),
            forall|k: int| 0 <= k < lo ==> is_trim_ws(line@[k]),
        decreases n - lo,
    {
        lo = lo + 1;
    }
    proof {
        lemma_char_ws_from_char(line@, 0, lo as int);
    }
    let mut hi: usize = n;
    while hi > 0 && trim_ws_char(line[hi - 1])
        invariant
            hi <= n,
            n == line@.len(),
            forall|k: int| hi <= k < n ==> is_trim_ws(line@[k]),
        decreases hi,
    {
        hi = hi - 1;
    }
    proof {
        lemma_char_ws_back_char(line@, n as int, hi as int);
    }
    if hi <= lo {
        proof {
            reveal_strlit("---");
            assert(char_ws_from(line@, 0) == lo as int);
            assert(char_ws_back(line@, n as int) == hi as int);
            assert(trim_chars(line@) =~= Seq::<char>::empty());
            assert("---"@.len() == 3);
            assert(!is_delim_line(line@));
        }
        return false;
    }
    if hi - lo != 3 {
        proof {
            reveal_strlit("---");
            assert(trim_chars(line@).len() == hi - lo);
        }
        return false;
    }
    let r = line[lo] == '-' && line[lo + 1] == '-' && line[lo + 2] == '-';
    proof {
        reveal_strlit("---");
        let t = trim_chars(line@);
        assert(t.len() == 3);
        assert(t[0] == line@[lo as int]);
        assert(t[1] == line@[lo as int + 1]);
        assert(t[2] == line@[lo as int + 2]);
        if r {
            assert(t =~= "---"@);
        } else {
            assert(t != "---"@);
        }
    }
    r
}

proof fn lemma_char_ws_from_char(l: Seq<char>, i: int, j: int)
    requires
        0 <= i <= j <= l.len(),
        forall|k: int| i <= k < j ==> is_trim_ws(l[k]),
        j < l.len() ==> !is_trim_ws(l[j]),
    ensures
        char_ws_from(l, i) == j,
    decreases j - i,
{
    if i < j {
        lemma_char_ws_from_char(l, i + 1, j);
    }
}

proof fn lemma_char_ws_back_char(l: Seq<char>, i: int, j: int)
    requires
        0 <= j <= i <= l.len(),
        forall|k: int| j <= k < i ==> is_trim_ws(l[k]),
        j > 0 ==> !is_trim_ws(l[j - 1]),
    ensures
        char_ws_back(l, i) == j,
    decreases i - j,
{
    if j < i {
        lemma_char_ws_back_char(l, i - 1, j);
    }
}

/// Finds the first delimiter line at or after `from`.
fn find_delim(lines: &Vec<Vec<char>>, from: usize) -> (r: usize)
    requires
        from <= lines@.len(),
    ensures
        r as int == first_delim(lines.deep_view(), from as int),
        from <= r <= lines@.len(),
{
    let ghost ldv = lines.deep_view();
    let n = lines.len();
    let mut s: usize = from;
    while s < n && !is_delim_line_exec(&lines[s])
        invariant
            from <= s <= n,
            n == lines@.len(),
            ldv == lines.deep_view(),
            forall|k: int| from <= k < s ==> !is_delim_line(ldv[k]),
        decreases n - s,
    {
        proof {
            assert(ldv[s as int] == lines@[s as int]@);
        }
        s = s + 1;
    }
    proof {
        if s < n {
            assert(ldv[s as int] == lines@[s as int]@);
        }
        lemma_first_delim_char(ldv, from as int, s as int);
    }
    s
}

/// Extracts the metadata text between the first two `---` delimiter lines.
pub fn extract_yaml(content: &str) -> (r: Result<String, FrontmatterError>)
    ensures
        match r {
            Ok(s) => spec_extract_yaml(content@) == Ok::<Seq<char>, FrontmatterErrorV>(s@),
            Err(e) => spec_extract_yaml(content@) == Err::<Seq<char>, FrontmatterErrorV>(e@),
        },
{
    let cv = chars_vec(content);
    let lines = split_lines(&cv);
    let ghost ldv = lines.deep_view();
    let n = lines.len();
    // first delimiter
    let s = find_delim(&lines, 0);
    proof {
        lemma_first_delim_bounds(ldv, 0);
    }
    if s >= n {
        return Err(FrontmatterError::MissingDelimiters);
    }
    // second delimiter
    let e = find_delim(&lines, s + 1);
    proof {
        lemma_first_delim_bounds(ldv, s as int + 1);
    }
    if e >= n {
        return Err(FrontmatterError::MissingDelimiters);
    }
    // join the lines in between
    let mut out = String::new();
    let mut i: usize = s + 1;
    proof {
        assert(ldv.subrange(s as int + 1, s as int + 1) =~= Seq::<Seq<char>>::empty());
        assert(out@ =~= join_lines(ldv.subrange(s as int + 1, s as int + 1)));
    }
    while i < e
        invariant
            s + 1 <= i <= e <= n,
            n == lines@.len(),
            ldv == lines.deep_view(),
            out@ == join_lines(ldv.subrange(s as int + 1, i as int)),
        decreases e - i,
    {
        if i > s + 1 {
            push_str(&mut out, "\n");
            proof {
                reveal_strlit("\n");
            }
        }
        let piece = crate::text::chars_to_string(&lines[i], 0, lines[i].len());
        push_str(&mut out, piece.as_str());
        proof {
            reveal_strlit("\n");
            assert(piece@ =~= ldv[i as int]);
            let pre = ldv.subrange(s as int + 1, i as int);
            let now = ldv.subrange(s as int + 1, i as int + 1);
            assert(now.drop_last() =~= pre);
            assert(now.last() == ldv[i as int]);
            if i > s + 1 {
                assert(now.len() >= 2);
                assert(out@ =~= join_lines(pre) + seq!['\n'] + ldv[i as int]);
            } else {
                assert(now.len() == 1);
                assert(out@ =~= ldv[i as int]);
            }
        }
        i = i + 1;
    }
    Ok(out)
}

proof fn lemma_first_delim_char(lines: Seq<Seq<char>>, from: int, j: int)
    requires
        0 <= from <= j <= lines.len(),
        forall|k: int| from <= k < j ==> !is_delim_line(lines[k]),
        j < lines.len() ==> is_delim_line(lines[j]),
    ensures
        first_delim(lines, from) == j,
    decreases j - from,
{
    if from < j {
        lemma_first_delim_char(lines, from + 1, j);
    }
}

} // verus!
