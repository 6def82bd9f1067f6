//! What a lint run finds in a file.
use crate::discover::Kind;
use vstd::prelude::*;

verus! {

/// Marks how a finding affects the exit code.
#[derive(Debug, Clone, Copy, PartialEq, Eq, Structural)]
pub enum Severity {
    Error,
    Warning,
}

impl Severity {
    /// The severity as it reads in a report.
    pub open spec fn label(self) -> Seq<char> {
        match self {
            Severity::Error => "error"@,
            Severity::Warning => "warning"@,
        }
    }

    /// Returns the severity as it reads in a report.
    pub fn as_str(self) -> (r: &'static str)
        ensures
            r@ == self.label(),
    {
        match self {
            Severity::Error => "error",
            Severity::Warning => "warning",
        }
    }
}

/// A single rule violation.
#[derive(Debug, Clone)]
pub struct Finding {
    pub file: String,
    /// The line in the file, from 1; 0 where the finding is about no one line.
    pub line: usize,
    pub rule: String,
    pub severity: Severity,
    pub message: String,
}

/// What a [`Finding`] says.
#[verifier::ext_equal]
pub struct FindingView {
    pub file: Seq<char>,
    pub line: nat,
    pub rule: Seq<char>,
    pub severity: Severity,
    pub message: Seq<char>,
}

impl View for Finding {
    type V = FindingView;

    open spec fn view(&self) -> FindingView {
        FindingView {
            file: self.file@,
            line: self.line as nat,
            rule: self.rule@,
            severity: self.severity,
            message: self.message@,
        }
    }
}

/// What each finding says, in order.
pub open spec fn said(findings: Seq<Finding>) -> Seq<FindingView> {
    findings.map_values(|f: Finding| f@)
}

/// How many of the findings have the severity.
pub open spec fn severity_count(findings: Seq<FindingView>, severity: Severity) -> nat {
    findings.filter(|f: FindingView| f.severity == severity).len()
}

/// Reports whether `n` is zero, and so left out of a report.
pub fn is_zero(n: &usize) -> (r: bool)
    ensures
        r == (*n == 0),
{
    *n == 0
}

/// The measured token cost of a file's parts.
#[derive(Debug, Clone, Copy, PartialEq, Eq, Structural)]
pub struct Counts {
    pub content: usize,
    pub name: usize,
    pub description: usize,
}

impl Default for Counts {
    /// Nothing measured.
    fn default() -> (r: Self)
        ensures
            r == (Counts { content: 0, name: 0, description: 0 }),
    {
        Counts { content: 0, name: 0, description: 0 }
    }
}

/// Everything learned about one file.
#[derive(Debug, Clone)]
pub struct FileResult {
    pub path: String,
    pub kind: Kind,
    pub tokens: Counts,
    pub findings: Vec<Finding>,
}

impl FileResult {
    /// Counts the errors among the findings.
    pub fn errors(&self) -> (r: usize)
        ensures
            r == severity_count(said(self.findings@), Severity::Error),
    {
        self.count(Severity::Error)
    }

    /// Counts the warnings among the findings.
    pub fn warnings(&self) -> (r: usize)
        ensures
            r == severity_count(said(self.findings@), Severity::Warning),
    {
        self.count(Severity::Warning)
    }

    fn count(&self, s: Severity) -> (r: usize)
        ensures
            r == severity_count(said(self.findings@), s),
    {
        let ghost all = said(self.findings@);
        let ghost wanted = |f: FindingView| f.severity == s;
        let mut n: usize = 0;
        let mut i: usize = 0;
        proof {
            reveal(Seq::filter);
        }
        while i < self.findings.len()
            invariant
                i <= self.findings.len(),
                n <= i,
                all == said(self.findings@),
                wanted == (|f: FindingView| f.severity == s),
                n == all.take(i as int).filter(wanted).len(),
            decreases self.findings.len() - i,
        {
            proof {
                reveal(Seq::filter);
                assert(all.take(i + 1).drop_last() =~= all.take(i as int));
                assert(all.take(i + 1).last() == self.findings@[i as int]@);
            }
            if self.findings[i].severity == s {
                n += 1;
            }
            i += 1;
        }
        assert(all.take(i as int) =~= all);
        n
    }
}

/// Every finding is an error or a warning, and none is both.
pub proof fn law_errors_and_warnings(findings: Seq<FindingView>)
    ensures
        severity_count(findings, Severity::Error) + severity_count(findings, Severity::Warning)
            == findings.len(),
    decreases findings.len(),
{
    reveal(Seq::filter);
    if findings.len() > 0 {
        law_errors_and_warnings(findings.drop_last());
    }
}

/// One more finding adds one to the count of its own severity, and nothing to
/// the other's.
pub proof fn law_counting_findings(findings: Seq<FindingView>, f: FindingView, severity: Severity)
    ensures
        severity_count(Seq::empty(), severity) == 0,
        f.severity == severity ==> severity_count(findings.push(f), severity) == severity_count(
            findings,
            severity,
        ) + 1,
        f.severity != severity ==> severity_count(findings.push(f), severity) == severity_count(
            findings,
            severity,
        ),
{
    reveal(Seq::filter);
    assert(findings.push(f).drop_last() =~= findings);
}

/// What findings say is what each of them says, in order.
pub proof fn law_said_in_order(findings: Seq<Finding>)
    ensures
        said(findings).len() == findings.len(),
        forall|i: int| 0 <= i < findings.len() ==> (#[trigger] said(findings)[i]).line
            == findings[i].line && said(findings)[i].file == findings[i].file@
            && said(findings)[i].rule == findings[i].rule@ && said(findings)[i].severity
            == findings[i].severity && said(findings)[i].message == findings[i].message@,
{
}

} // verus!
