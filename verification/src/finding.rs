//! Diagnostic results: a severity scale, the findings the checks emit, the
//! severity-ranked ordering of a report, filtering, suppression, and the
//! process exit status a report maps to.

use vstd::prelude::*;

use crate::text::{push_str, str_eq, vec_contains_string};

verus! {

/// How bad a finding is. `Error` outranks `Warning`, which outranks `Info`.
#[derive(Debug, Clone, Copy, PartialEq, Eq, PartialOrd, Ord, Hash, Structural)]
pub enum Severity {
    Info,
    Warning,
    Error,
}

/// The ordinal of a severity: the report ranks findings by this, descending.
pub open spec fn severity_rank(s: Severity) -> int {
    match s {
        Severity::Info => 0,
        Severity::Warning => 1,
        Severity::Error => 2,
    }
}

pub open spec fn spec_label(s: Severity) -> Seq<char> {
    match s {
        Severity::Error => "ERROR"@,
        Severity::Warning => "WARN"@,
        Severity::Info => "INFO"@,
    }
}

impl Severity {
    /// The fixed label a report prints for this severity.
    pub fn label(&self) -> (r: &'static str)
        ensures
            r@ == spec_label(*self),
    {
        match self {
            Severity::Error => "ERROR",
            Severity::Warning => "WARN",
            Severity::Info => "INFO",
        }
    }

    /// Whether this severity ranks at least as high as `other`.
    pub fn at_least(&self, other: &Severity) -> (r: bool)
        ensures
            r == (severity_rank(*self) >= severity_rank(*other)),
    {
        let a: u8 = match self {
            Severity::Info => 0,
            Severity::Warning => 1,
            Severity::Error => 2,
        };
        let b: u8 = match other {
            Severity::Info => 0,
            Severity::Warning => 1,
            Severity::Error => 2,
        };
        a >= b
    }
}

/// One diagnostic result.
#[derive(Debug, Clone)]
pub struct Finding {
    pub severity: Severity,
    pub message: String,
    /// A suggestion for fixing the problem; never empty in what the checks
    /// emit.
    pub fix: String,
    /// The path the finding points at, when one is known.
    pub path: Option<String>,
    /// Key for suppression matching, in the form `kind:source` or
    /// `kind:source:detail`.
    pub suppress_key: String,
}

/// The mathematical value of a [`Finding`].
pub ghost struct FindingV {
    pub severity: Severity,
    pub message: Seq<char>,
    pub fix: Seq<char>,
    pub path: Option<Seq<char>>,
    pub suppress_key: Seq<char>,
}

impl View for Finding {
    type V = FindingV;

    open spec fn view(&self) -> FindingV {
        FindingV {
            severity: self.severity,
            message: self.message@,
            fix: self.fix@,
            path: self.path.deep_view(),
            suppress_key: self.suppress_key@,
        }
    }
}

impl DeepView for Finding {
    type V = FindingV;

    open spec fn deep_view(&self) -> FindingV {
        self.view()
    }
}

pub open spec fn finding_v(
    severity: Severity,
    message: Seq<char>,
    fix: Seq<char>,
    path: Option<Seq<char>>,
    key: Seq<char>,
) -> FindingV {
    FindingV { severity: severity, message: message, fix: fix, path: path, suppress_key: key }
}

impl Finding {
    /// An error finding without a path.
    pub fn error(message: String, fix: String, key: String) -> (r: Finding)
        ensures
            r@ == finding_v(Severity::Error, message@, fix@, None, key@),
    {
        Finding { severity: Severity::Error, message, fix, path: None, suppress_key: key }
    }

    /// An error finding that points at a path.
    pub fn error_with_path(message: String, fix: String, key: String, path: String) -> (r:
        Finding)
        ensures
            r@ == finding_v(Severity::Error, message@, fix@, Some(path@), key@),
    {
        Finding { severity: Severity::Error, message, fix, path: Some(path), suppress_key: key }
    }

    /// A warning finding without a path.
    pub fn warning(message: String, fix: String, key: String) -> (r: Finding)
        ensures
            r@ == finding_v(Severity::Warning, message@, fix@, None, key@),
    {
        Finding { severity: Severity::Warning, message, fix, path: None, suppress_key: key }
    }

    /// A warning finding that points at a path.
    pub fn warning_with_path(message: String, fix: String, key: String, path: String) -> (r:
        Finding)
        ensures
            r@ == finding_v(Severity::Warning, message@, fix@, Some(path@), key@),
    {
        Finding { severity: Severity::Warning, message, fix, path: Some(path), suppress_key: key }
    }

    /// An informational finding without a path.
    pub fn info(message: String, fix: String, key: String) -> (r: Finding)
        ensures
            r@ == finding_v(Severity::Info, message@, fix@, None, key@),
    {
        Finding { severity: Severity::Info, message, fix, path: None, suppress_key: key }
    }
}

/// A field-for-field copy.
pub fn clone_finding(f: &Finding) -> (r: Finding)
    ensures
        r@ == f@,
{
    let path: Option<String> = match &f.path {
        Some(p) => Some(p.clone()),
        None => None,
    };
    Finding {
        severity: f.severity,
        message: f.message.clone(),
        fix: f.fix.clone(),
        path,
        suppress_key: f.suppress_key.clone(),
    }
}

// ---------------------------------------------------------------------------
// Ranking, filtering, suppression, exit status
// ---------------------------------------------------------------------------

pub open spec fn sev_pred(s: Severity) -> spec_fn(FindingV) -> bool {
    |f: FindingV| f.severity == s
}

/// The ranked order of a report: all errors first, then all warnings, then
/// all infos, each group keeping discovery order. This is exactly a stable
/// sort by severity, descending.
pub open spec fn spec_rank_findings(fs: Seq<FindingV>) -> Seq<FindingV> {
    fs.filter(sev_pred(Severity::Error)) + fs.filter(sev_pred(Severity::Warning)) + fs.filter(
        sev_pred(Severity::Info),
    )
}

/// No finding is followed by one of higher severity.
pub open spec fn findings_sorted(fs: Seq<FindingV>) -> bool {
    forall|i: int, j: int|
        0 <= i < j < fs.len() ==> severity_rank(fs[i].severity) >= severity_rank(fs[j].severity)
}

/// Law: the ranked report is sorted by severity, descending; in particular
/// no error ever appears after a warning or an info.
pub proof fn lemma_rank_findings_sorted(fs: Seq<FindingV>)
    ensures
        findings_sorted(spec_rank_findings(fs)),
{
    broadcast use vstd::seq_lib::group_filter_ensures;

    let e = fs.filter(sev_pred(Severity::Error));
    let w = fs.filter(sev_pred(Severity::Warning));
    let n = fs.filter(sev_pred(Severity::Info));
    let r = spec_rank_findings(fs);
    assert forall|i: int, j: int| 0 <= i < j < r.len() implies severity_rank(r[i].severity)
        >= severity_rank(r[j].severity) by {
        if i < e.len() {
            fs.lemma_filter_pred(sev_pred(Severity::Error), i);
        } else if i < e.len() + w.len() {
            fs.lemma_filter_pred(sev_pred(Severity::Warning), i - e.len());
        } else {
            fs.lemma_filter_pred(sev_pred(Severity::Info), i - e.len() - w.len());
        }
        if j < e.len() {
            fs.lemma_filter_pred(sev_pred(Severity::Error), j);
        } else if j < e.len() + w.len() {
            fs.lemma_filter_pred(sev_pred(Severity::Warning), j - e.len());
        } else {
            fs.lemma_filter_pred(sev_pred(Severity::Info), j - e.len() - w.len());
        }
    }
}

/// Law: ranking only reorders; every finding keeps its multiplicity.
pub proof fn lemma_rank_findings_permutes(fs: Seq<FindingV>)
    ensures
        spec_rank_findings(fs).to_multiset() == fs.to_multiset(),
    decreases fs.len(),
{
    broadcast use vstd::seq_lib::group_to_multiset_ensures;

    reveal_with_fuel(Seq::<FindingV>::filter, 2);
    if fs.len() == 0 {
        assert(fs.filter(sev_pred(Severity::Error)) =~= Seq::<FindingV>::empty());
        assert(fs.filter(sev_pred(Severity::Warning)) =~= Seq::<FindingV>::empty());
        assert(fs.filter(sev_pred(Severity::Info)) =~= Seq::<FindingV>::empty());
        assert(spec_rank_findings(fs) =~= Seq::<FindingV>::empty());
        assert(spec_rank_findings(fs).to_multiset() =~= fs.to_multiset());
    } else {
        let pre = fs.drop_last();
        let x = fs.last();
        lemma_rank_findings_permutes(pre);
        let pe = pre.filter(sev_pred(Severity::Error));
        let pw = pre.filter(sev_pred(Severity::Warning));
        let pn = pre.filter(sev_pred(Severity::Info));
        let e = fs.filter(sev_pred(Severity::Error));
        let w = fs.filter(sev_pred(Severity::Warning));
        let n = fs.filter(sev_pred(Severity::Info));
        vstd::seq_lib::lemma_multiset_commutative(pe + pw, pn);
        vstd::seq_lib::lemma_multiset_commutative(pe, pw);
        vstd::seq_lib::lemma_multiset_commutative(e + w, n);
        vstd::seq_lib::lemma_multiset_commutative(e, w);
        if x.severity == Severity::Error {
            assert(e =~= pe.push(x));
            assert(w =~= pw);
            assert(n =~= pn);
        } else if x.severity == Severity::Warning {
            assert(e =~= pe);
            assert(w =~= pw.push(x));
            assert(n =~= pn);
        } else {
            assert(e =~= pe);
            assert(w =~= pw);
            assert(n =~= pn.push(x));
        }
        assert(fs =~= pre.push(x));
        assert(fs.to_multiset() =~= pre.to_multiset().insert(x));
        assert(spec_rank_findings(fs).to_multiset() =~= fs.to_multiset());
    }
}

/// Keeps the findings of one severity, in order.
fn filter_by_severity(findings: &Vec<Finding>, s: Severity) -> (r: Vec<Finding>)
    ensures
        r.deep_view() == findings.deep_view().filter(sev_pred(s)),
{
    let ghost fdv = findings.deep_view();
    let ghost pred = sev_pred(s);
    let mut r: Vec<Finding> = Vec::new();
    let mut k: usize = 0;
    proof {
        reveal_with_fuel(Seq::<FindingV>::filter, 1);
        assert(fdv.take(0) =~= Seq::<FindingV>::empty());
        assert(r.deep_view() =~= fdv.take(0).filter(pred));
    }
    while k < findings.len()
        invariant
            k <= findings@.len(),
            fdv == findings.deep_view(),
            fdv.len() == findings@.len(),
            pred == sev_pred(s),
            r.deep_view() == fdv.take(k as int).filter(pred),
        decreases findings@.len() - k,
    {
        let f = &findings[k];
        let ghost x = fdv[k as int];
        proof {
            assert(x == findings@[k as int]@);
        }
        let keep = f.severity == s;
        let ghost prev = r.deep_view();
        if keep {
            r.push(clone_finding(f));
            proof {
                assert(r.deep_view() =~~= prev.push(x));
            }
        }
        proof {
            reveal_with_fuel(Seq::<FindingV>::filter, 2);
            let t = fdv.take(k as int + 1);
            assert(t.drop_last() =~= fdv.take(k as int));
            assert(t.last() == x);
            assert(t.filter(pred) == if pred(x) {
                t.drop_last().filter(pred).push(x)
            } else {
                t.drop_last().filter(pred)
            });
            assert(pred(x) == keep);
            assert(r.deep_view() == t.filter(pred));
        }
        k = k + 1;
    }
    proof {
        assert(fdv.take(fdv.len() as int) =~= fdv);
    }
    r
}

/// Orders a report: errors first, then warnings, then infos, each group in
/// discovery order (a stable sort by severity, descending).
pub fn rank_findings(findings: &Vec<Finding>) -> (r: Vec<Finding>)
    ensures
        r.deep_view() == spec_rank_findings(findings.deep_view()),
{
    let mut r = filter_by_severity(findings, Severity::Error);
    let mut w = filter_by_severity(findings, Severity::Warning);
    let mut n = filter_by_severity(findings, Severity::Info);
    let ghost re = r.deep_view();
    r.append(&mut w);
    proof {
        assert(r.deep_view() =~~= re + findings.deep_view().filter(sev_pred(Severity::Warning)));
    }
    let ghost rw = r.deep_view();
    r.append(&mut n);
    proof {
        assert(r.deep_view() =~~= rw + findings.deep_view().filter(sev_pred(Severity::Info)));
        assert(r.deep_view() =~= spec_rank_findings(findings.deep_view()));
    }
    r
}

pub open spec fn min_sev_pred(min: Severity) -> spec_fn(FindingV) -> bool {
    |f: FindingV| severity_rank(f.severity) >= severity_rank(min)
}

/// Keeps the findings whose severity reaches the threshold.
pub fn filter_min_severity(findings: &Vec<Finding>, min: Severity) -> (r: Vec<Finding>)
    ensures
        r.deep_view() == findings.deep_view().filter(min_sev_pred(min)),
{
    let ghost fdv = findings.deep_view();
    let ghost pred = min_sev_pred(min);
    let mut r: Vec<Finding> = Vec::new();
    let mut k: usize = 0;
    proof {
        reveal_with_fuel(Seq::<FindingV>::filter, 1);
        assert(fdv.take(0) =~= Seq::<FindingV>::empty());
        assert(r.deep_view() =~= fdv.take(0).filter(pred));
    }
    while k < findings.len()
        invariant
            k <= findings@.len(),
            fdv == findings.deep_view(),
            fdv.len() == findings@.len(),
            pred == min_sev_pred(min),
            r.deep_view() == fdv.take(k as int).filter(pred),
        decreases findings@.len() - k,
    {
        let f = &findings[k];
        let ghost x = fdv[k as int];
        proof {
            assert(x == findings@[k as int]@);
        }
        let keep = f.severity.at_least(&min);
        let ghost prev = r.deep_view();
        if keep {
            r.push(clone_finding(f));
            proof {
                assert(r.deep_view() =~~= prev.push(x));
            }
        }
        proof {
            reveal_with_fuel(Seq::<FindingV>::filter, 2);
            let t = fdv.take(k as int + 1);
            assert(t.drop_last() =~= fdv.take(k as int));
            assert(t.last() == x);
            assert(t.filter(pred) == if pred(x) {
                t.drop_last().filter(pred).push(x)
            } else {
                t.drop_last().filter(pred)
            });
            assert(pred(x) == keep);
            assert(r.deep_view() == t.filter(pred));
        }
        k = k + 1;
    }
    proof {
        assert(fdv.take(fdv.len() as int) =~= fdv);
    }
    r
}

pub open spec fn not_ignored_pred(ignore: Seq<Seq<char>>) -> spec_fn(FindingV) -> bool {
    |f: FindingV| !ignore.contains(f.suppress_key)
}

pub open spec fn mark_suppressed(f: FindingV, ignore: Seq<Seq<char>>) -> FindingV {
    if ignore.contains(f.suppress_key) {
        FindingV {
            severity: f.severity,
            message: f.message + " (suppressed)"@,
            fix: f.fix,
            path: f.path,
            suppress_key: f.suppress_key,
        }
    } else {
        f
    }
}

/// What suppression leaves of a report. Quiet runs drop ignored findings;
/// verbose runs keep them with "(suppressed)" appended to the message.
pub open spec fn spec_suppress(fs: Seq<FindingV>, ignore: Seq<Seq<char>>, verbose: bool) -> Seq<
    FindingV,
> {
    if verbose {
        fs.map_values(|f: FindingV| mark_suppressed(f, ignore))
    } else {
        fs.filter(not_ignored_pred(ignore))
    }
}

/// Applies the configured ignore list to a report.
pub fn apply_suppression(findings: &Vec<Finding>, ignore: &Vec<String>, verbose: bool) -> (r: Vec<
    Finding,
>)
    ensures
        r.deep_view() == spec_suppress(findings.deep_view(), ignore.deep_view(), verbose),
{
    let ghost fdv = findings.deep_view();
    let ghost ig = ignore.deep_view();
    let mut r: Vec<Finding> = Vec::new();
    let mut k: usize = 0;
    proof {
        reveal_with_fuel(Seq::<FindingV>::filter, 1);
        assert(fdv.take(0) =~= Seq::<FindingV>::empty());
        assert(r.deep_view() =~= spec_suppress(fdv.take(0), ig, verbose));
    }
    while k < findings.len()
        invariant
            k <= findings@.len(),
            fdv == findings.deep_view(),
            fdv.len() == findings@.len(),
            ig == ignore.deep_view(),
            r.deep_view() == spec_suppress(fdv.take(k as int), ig, verbose),
        decreases findings@.len() - k,
    {
        let f = &findings[k];
        let ghost x = fdv[k as int];
        proof {
            assert(x == findings@[k as int]@);
        }
        let ignored = vec_contains_string(ignore, f.suppress_key.as_str());
        let ghost prev = r.deep_view();
        if verbose {
            if ignored {
                let mut marked = clone_finding(f);
                push_str(&mut marked.message, " (suppressed)");
                r.push(marked);
            } else {
                r.push(clone_finding(f));
            }
            proof {
                assert(r.deep_view() =~~= prev.push(mark_suppressed(x, ig)));
                assert(fdv.take(k as int + 1).map_values(
                    |f: FindingV| mark_suppressed(f, ig),
                ) =~= prev.push(mark_suppressed(x, ig)));
            }
        } else {
            if !ignored {
                r.push(clone_finding(f));
                proof {
                    assert(r.deep_view() =~~= prev.push(x));
                }
            }
            proof {
                reveal_with_fuel(Seq::<FindingV>::filter, 2);
                let t = fdv.take(k as int + 1);
                assert(t.drop_last() =~= fdv.take(k as int));
                assert(t.last() == x);
                assert(t.filter(not_ignored_pred(ig)) == if not_ignored_pred(ig)(x) {
                    t.drop_last().filter(not_ignored_pred(ig)).push(x)
                } else {
                    t.drop_last().filter(not_ignored_pred(ig))
                });
                assert(not_ignored_pred(ig)(x) == !ignored);
                assert(r.deep_view() == t.filter(not_ignored_pred(ig)));
            }
        }
        k = k + 1;
    }
    proof {
        assert(fdv.take(fdv.len() as int) =~= fdv);
    }
    r
}

pub open spec fn spec_has_error(fs: Seq<FindingV>) -> bool {
    exists|i: int| 0 <= i < fs.len() && fs[i].severity == Severity::Error
}

/// The process exit status a report maps to: 1 when any error survives,
/// otherwise 0.
pub fn exit_code(findings: &Vec<Finding>) -> (r: i32)
    ensures
        r == if spec_has_error(findings.deep_view()) {
            1int
        } else {
            0int
        },
{
    let mut k: usize = 0;
    while k < findings.len()
        invariant
            k <= findings@.len(),
            forall|m: int|
                0 <= m < k ==> (#[trigger] findings.deep_view()[m]).severity != Severity::Error,
        decreases findings@.len() - k,
    {
        if findings[k].severity == Severity::Error {
            proof {
                assert(findings.deep_view()[k as int].severity == Severity::Error);
            }
            return 1;
        }
        k = k + 1;
    }
    0
}

} // verus!
