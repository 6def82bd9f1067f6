//! Applies the rules to agent instruction files.
use crate::config::{Config, MAX_DESCRIPTION_CHARS, MAX_NAME_CHARS};
use crate::discover::{Kind, Target};
use crate::fence::{fence_after, FenceTracker};
use crate::finding::{said, Counts, FileResult, Finding, Severity};
use crate::format::{decimal_string, humanize, quote};
use crate::parse::{Document, ErrKind, Frontmatter, Value};
use crate::path::{
    clean_path, contains_path, paths, resolved, FilePath, Step,
};
use crate::patterns::is_name;
use crate::reference::{line_targets, targets_in_line};
use crate::report::{
    allowed_tools_reports, budget_reports, declared, description_reports,
    directory_name, file_findings, file_references, file_reports, finding_in,
    findings_of, front_reports, key_reports, keys_reports, known_key, lemma_findings_add,
    lemma_findings_none, lemma_findings_one, metadata_reports, missing_reports, name_reports,
    over_limit, reference_reports, scope_of, skill_reports, ReferenceView, Report, Scope,
    ALLOWED_TOOLS_MESSAGE, DESCRIPTION_REQUIRED_MESSAGE, KNOWN_KEYS, METADATA_MESSAGE,
    MISSING_MESSAGE, NAME_REQUIRED_MESSAGE,
};
use crate::rules::{
    sort_findings, RULE_ALLOWED_TOOLS_TYPE, RULE_DESCRIPTION_LENGTH, RULE_DESCRIPTION_REQUIRED,
    RULE_FILE_REFERENCE_MISSING, RULE_FRONTMATTER_INVALID, RULE_FRONTMATTER_MISSING,
    RULE_FRONTMATTER_NOT_FIRST, RULE_FRONTMATTER_UNKNOWN_KEY, RULE_FRONTMATTER_UNTERMINATED,
    RULE_METADATA_TYPE, RULE_NAME_DIR_MISMATCH, RULE_NAME_FORMAT, RULE_NAME_LENGTH,
    RULE_NAME_REQUIRED, RULE_TOKENS_CONTENT, RULE_TOKENS_DESCRIPTION, RULE_TOKENS_NAME,
};
use crate::text::{contains_text, same_text, split, texts, trim};
use crate::tokens::{counted, Counter};
use vstd::prelude::*;

verus! {

/// A reference to a file, to be looked up before the file that makes it is
/// checked.
#[derive(Debug, Clone)]
pub struct Reference {
    /// The line in the referring file, from 1.
    pub line: usize,
    /// The file, as it is referred to.
    pub target: String,
    /// The file that is meant.
    pub resolved: FilePath,
}

impl View for Reference {
    type V = ReferenceView;

    open spec fn view(&self) -> ReferenceView {
        ReferenceView {
            line: self.line as nat,
            target: self.target@,
            resolved: self.resolved@,
        }
    }
}

/// What each reference says, in order.
pub open spec fn referred(references: Seq<Reference>) -> Seq<ReferenceView> {
    references.map_values(|r: Reference| r@)
}

/// Collects findings, leaving out the rules that are switched off and
/// promoting warnings in a strict run.
struct Reporter<'a> {
    findings: Vec<Finding>,
    cfg: &'a Config,
    path: &'a str,
}

/// Whether `new` is `old` with the findings that the reports make behind it.
spec fn extends(old: Reporter<'_>, new: Reporter<'_>, reports: Seq<Report>) -> bool {
    &&& new.cfg == old.cfg
    &&& new.path == old.path
    &&& said(new.findings@) == said(old.findings@) + findings_of(*old.cfg, old.path@, reports)
}

proof fn lemma_extends_none(r: Reporter<'_>)
    ensures
        extends(r, r, seq![]),
{
    lemma_findings_none(*r.cfg, r.path@);
    assert(said(r.findings@) + Seq::empty() =~= said(r.findings@));
}

proof fn lemma_extends_add(
    a: Reporter<'_>,
    b: Reporter<'_>,
    c: Reporter<'_>,
    first: Seq<Report>,
    second: Seq<Report>,
)
    requires
        extends(a, b, first),
        extends(b, c, second),
    ensures
        extends(a, c, first + second),
{
    lemma_findings_add(*a.cfg, a.path@, first, second);
    assert(said(c.findings@) =~= said(a.findings@) + findings_of(*a.cfg, a.path@, first + second));
}

impl<'a> Reporter<'a> {
    fn add(&mut self, rule: &str, severity: Severity, line: usize, msg: String)
        ensures
            extends(
                *old(self),
                *final(self),
                seq![Report { rule: rule@, severity, line: line as nat, message: msg@ }],
            ),
    {
        let ghost report = Report { rule: rule@, severity, line: line as nat, message: msg@ };
        let ghost before = said(self.findings@);
        proof {
            lemma_findings_one(*self.cfg, self.path@, report);
        }
        if contains_text(&self.cfg.disabled, rule) {
            assert(said(self.findings@) =~= before + Seq::empty());
            return;
        }
        let mut sev: Severity = severity;
        if sev == Severity::Warning && self.cfg.strict {
            sev = Severity::Error;
        }
        let finding: Finding = Finding {
            file: self.path.to_owned(),
            line,
            rule: rule.to_owned(),
            severity: sev,
            message: msg,
        };
        self.findings.push(finding);
        proof {
            assert(finding@ == finding_in(*self.cfg, self.path@)(report));
            assert(said(self.findings@) =~= before + seq![finding@]);
        }
    }
}

/// Joins two texts.
fn concat2(a: &str, b: &str) -> (r: String)
    ensures
        r@ == a@ + b@,
{
    let mut out: String = a.to_owned();
    out.append(b);
    out
}

/// Renders "`part` is `count` `unit`s, over the `limit` `unit` limit".
fn over_limit_message(part: &str, count: &str, unit: &str, limit: &str) -> (r: String)
    ensures
        r@ == over_limit(part@, count@, unit@, limit@),
{
    let mut out: String = part.to_owned();
    out.append(" is ");
    out.append(count);
    out.append(" ");
    out.append(unit);
    out.append("s, over the ");
    out.append(limit);
    out.append(" ");
    out.append(unit);
    out.append(" limit");
    out
}

/// Reports whether a key is one that front matter may have.
fn is_known_key(key: &str) -> (r: bool)
    ensures
        r == known_key(key@),
{
    let mut i: usize = 0;
    while i < 8
        invariant
            i <= 8,
            forall|j: int| 0 <= j < i ==> (#[trigger] KNOWN_KEYS[j])@ != key@,
        decreases 8 - i,
    {
        if same_text(KNOWN_KEYS[i], key) {
            return true;
        }
        i += 1;
    }
    false
}

/// Checks a token count against its budget.
fn check_budget(rule: &str, line: usize, part: &str, count: usize, budget: i64, r: &mut Reporter)
    ensures
        extends(
            *old(r),
            *final(r),
            budget_reports(rule@, line as nat, part@, count, budget),
        ),
{
    if budget > 0 && count as i64 > budget {
        r.add(
            rule,
            Severity::Error,
            line,
            over_limit_message(
                part,
                humanize(count as i64).as_str(),
                "token",
                humanize(budget).as_str(),
            ),
        );
    } else {
        proof {
            lemma_extends_none(*r);
        }
    }
}

/// The string that a skill declares under `key`, where its front matter is read
/// at all.
pub open spec fn declared_by(kind: Kind, doc: Document, key: Seq<char>) -> Option<Seq<char>> {
    if kind == Kind::Skill && doc.err is None && doc.fm.present {
        declared(doc.fm, key)
    } else {
        None
    }
}

/// Whether `n` is a number that the counter may give for a text that there may
/// be, and 0 where there is none.
pub open spec fn counted_if<C: Counter>(counter: C, text: Option<Seq<char>>, n: usize) -> bool {
    match text {
        Some(text) => counted(counter, text, n),
        None => n == 0,
    }
}

/// Whether `counts` are numbers that the counter may give for a file: for its
/// body, which leaves the front matter out, and for a skill's name and
/// description, where it declares them.
pub open spec fn measured<C: Counter>(counter: C, kind: Kind, doc: Document, counts: Counts) -> bool {
    &&& counted(counter, doc.body@, counts.content)
    &&& counted_if(counter, declared_by(kind, doc, "name"@), counts.name)
    &&& counted_if(counter, declared_by(kind, doc, "description"@), counts.description)
}

/// Applies [`Config`]'s rules using a token [`Counter`].
pub struct Linter<C> {
    cfg: Config,
    counter: C,
    /// Resolved once, at construction, so that a rule's verdict cannot depend
    /// on where the process happens to be when it runs.
    cwd: FilePath,
}

impl<C> Linter<C> {
    /// The thresholds and switches that the linter applies.
    pub closed spec fn cfg(&self) -> Config {
        self.cfg
    }

    /// The counter that the linter measures with.
    pub closed spec fn counter(&self) -> C {
        self.counter
    }

    /// The directory that relative paths are read in.
    pub closed spec fn cwd(&self) -> Seq<Step> {
        self.cwd@
    }
}

/// Returns the string declared under `key`, without the white space around it.
fn declared_string(fm: &Frontmatter, key: &str) -> (r: Option<String>)
    ensures
        match r {
            Some(text) => declared(*fm, key@) == Some(text@),
            None => declared(*fm, key@) is None,
        },
{
    match fm.string(key) {
        Some(raw) => {
            let text: &str = trim(raw.as_str());
            if text.is_empty() {
                None
            } else {
                Some(text.to_owned())
            }
        },
        None => None,
    }
}

impl<C: Counter> Linter<C> {
    /// Returns a Linter that treats `cwd` as the working directory.
    pub fn with_cwd(cfg: Config, counter: C, cwd: FilePath) -> (r: Self)
        ensures
            r.cfg() == cfg,
            r.counter() == counter,
            r.cwd() == cwd@,
    {
        Linter { cfg, counter, cwd }
    }

    /// Lints the parts of a file. `existing` holds the files that exist among
    /// those that [`Linter::references`] asks for. Findings are ordered by rule
    /// so output does not depend on the order the checks happen to run in.
    pub fn check(&self, t: &Target, doc: &Document, existing: &Vec<FilePath>) -> (r: FileResult)
        requires
            doc.countable(),
        ensures
            r.path@ == t.path@,
            r.kind == t.kind,
            measured(self.counter(), t.kind, *doc, r.tokens),
            said(r.findings@) == file_findings(
                self.cfg(),
                self.cwd(),
                *t,
                *doc,
                r.tokens,
                paths(existing@),
            ),
    {
        let tokens: Counts = self.measure(t, doc);
        self.check_counted(t, doc, tokens, existing)
    }

    /// Measures the parts of a file that have a token budget.
    pub fn measure(&self, t: &Target, doc: &Document) -> (r: Counts)
        ensures
            measured(self.counter(), t.kind, *doc, r),
    {
        let content: usize = self.count(doc.body.as_str());
        let mut name: usize = 0;
        let mut description: usize = 0;
        if t.kind == Kind::Skill && doc.err.is_none() && doc.fm.present {
            match declared_string(&doc.fm, "name") {
                Some(text) => {
                    name = self.count(text.as_str());
                },
                None => {},
            }
            match declared_string(&doc.fm, "description") {
                Some(text) => {
                    description = self.count(text.as_str());
                },
                None => {},
            }
        }
        Counts { content, name, description }
    }

    fn count(&self, text: &str) -> (r: usize)
        ensures
            counted(self.counter(), text@, r),
    {
        let n: usize = self.counter.count(text);
        assert(call_ensures(C::count, (&self.counter, text), n));
        n
    }

    /// Lints the parts of a file whose token cost is known.
    pub fn check_counted(
        &self,
        t: &Target,
        doc: &Document,
        tokens: Counts,
        existing: &Vec<FilePath>,
    ) -> (r: FileResult)
        requires
            doc.countable(),
        ensures
            r.path@ == t.path@,
            r.kind == t.kind,
            r.tokens == tokens,
            said(r.findings@) == file_findings(
                self.cfg(),
                self.cwd(),
                *t,
                *doc,
                tokens,
                paths(existing@),
            ),
    {
        let mut r: Reporter = Reporter {
            findings: Vec::new(),
            cfg: &self.cfg,
            path: t.path.as_str(),
        };
        let ghost start = r;
        let ghost front = front_reports(self.cfg, self.cwd@, *t, *doc, tokens);
        let ghost missing = missing_reports(
            file_references(self.cwd@, *t, *doc),
            paths(existing@),
        );
        if t.kind == Kind::Skill {
            self.check_skill(t, doc, tokens, &mut r);
        } else {
            match &doc.err {
                Some(e) => {
                    if e.kind == ErrKind::Unterminated {
                        r.add(RULE_FRONTMATTER_UNTERMINATED, Severity::Error, e.line, e.msg.clone());
                    } else {
                        proof {
                            lemma_extends_none(r);
                        }
                    }
                },
                None => {
                    proof {
                        lemma_extends_none(r);
                    }
                },
            }
        }
        assert(extends(start, r, front));
        let ghost after_front = r;
        self.check_file_references(t, doc, existing, &mut r);
        let ghost after_references = r;
        check_budget(
            RULE_TOKENS_CONTENT,
            0,
            "content",
            tokens.content,
            self.cfg.content_limit(t.kind),
            &mut r,
        );
        let ghost budget = budget_reports(
            RULE_TOKENS_CONTENT@,
            0,
            "content"@,
            tokens.content,
            self.cfg.body_budget(t.kind),
        );
        proof {
            lemma_extends_add(start, after_front, after_references, front, missing);
            lemma_extends_add(start, after_references, r, front + missing, budget);
            assert(said(start.findings@) =~= Seq::empty());
            assert(said(r.findings@) =~= findings_of(
                self.cfg,
                t.path@,
                file_reports(self.cfg, self.cwd@, *t, *doc, tokens, paths(existing@)),
            ));
        }
        let mut findings: Vec<Finding> = r.findings;
        sort_findings(&mut findings);
        FileResult { path: t.path.clone(), kind: t.kind, tokens, findings }
    }

    fn check_skill(&self, t: &Target, doc: &Document, tokens: Counts, r: &mut Reporter)
        requires
            *old(r).cfg == self.cfg,
        ensures
            extends(
                *old(r),
                *final(r),
                skill_reports(self.cfg, directory_name(self.cwd@, t.path@), *doc, tokens),
            ),
    {
        let fm: &Frontmatter = &doc.fm;
        match &doc.err {
            Some(e) => {
                let rule: &str = match e.kind {
                    ErrKind::NotFirst => RULE_FRONTMATTER_NOT_FIRST,
                    ErrKind::Unterminated => RULE_FRONTMATTER_UNTERMINATED,
                    ErrKind::Invalid => RULE_FRONTMATTER_INVALID,
                };
                r.add(rule, Severity::Error, e.line, e.msg.clone());
                return;
            },
            None => {},
        }
        if !fm.present {
            r.add(RULE_FRONTMATTER_MISSING, Severity::Error, 1, MISSING_MESSAGE.to_owned());
            return;
        }
        let ghost r0 = *r;
        check_keys(fm, r);
        let ghost r1 = *r;
        self.check_name(t, fm, tokens.name, r);
        let ghost r2 = *r;
        self.check_description(fm, tokens.description, r);
        let ghost r3 = *r;
        check_allowed_tools(fm, r);
        let ghost r4 = *r;
        check_metadata(fm, r);
        proof {
            let keys = keys_reports(*fm, fm.fields@.len());
            let name = name_reports(
                self.cfg,
                directory_name(self.cwd@, t.path@),
                *fm,
                tokens.name,
            );
            let description = description_reports(self.cfg, *fm, tokens.description);
            let tools = allowed_tools_reports(*fm);
            lemma_extends_add(r0, r1, r2, keys, name);
            lemma_extends_add(r0, r2, r3, keys + name, description);
            lemma_extends_add(r0, r3, r4, keys + name + description, tools);
            lemma_extends_add(r0, r4, *r, keys + name + description + tools, metadata_reports(*fm));
        }
    }

    fn check_name(&self, t: &Target, fm: &Frontmatter, tokens: usize, r: &mut Reporter)
        ensures
            extends(
                *old(r),
                *final(r),
                name_reports(self.cfg, directory_name(self.cwd@, t.path@), *fm, tokens),
            ),
    {
        let line: usize = fm.line("name");
        let name: String = match declared_string(fm, "name") {
            Some(name) => name,
            None => {
                r.add(
                    RULE_NAME_REQUIRED,
                    Severity::Error,
                    line,
                    NAME_REQUIRED_MESSAGE.to_owned(),
                );
                return;
            },
        };
        let ghost r0 = *r;
        let ghost full = name_reports(
            self.cfg,
            directory_name(self.cwd@, t.path@),
            *fm,
            tokens,
        );
        let quoted: String = concat2("name ", quote(name.as_str()).as_str());
        let ghost mut format: Seq<Report> = seq![];
        proof {
            lemma_extends_none(r0);
        }
        if !is_name(name.as_str()) {
            let msg: String = concat2(
                quoted.as_str(),
                " must be lowercase letters, digits and single hyphens (for example my-skill)",
            );
            proof {
                format = seq![
                    Report {
                        rule: RULE_NAME_FORMAT@,
                        severity: Severity::Error,
                        line: line as nat,
                        message: msg@,
                    },
                ];
            }
            r.add(RULE_NAME_FORMAT, Severity::Error, line, msg);
        }
        let ghost r1 = *r;
        let ghost mut length: Seq<Report> = seq![];
        proof {
            lemma_extends_none(r1);
        }
        let n: usize = name.as_str().unicode_len();
        if n > MAX_NAME_CHARS {
            let msg: String = over_limit_message(
                "name",
                decimal_string(n as u64).as_str(),
                "character",
                decimal_string(MAX_NAME_CHARS as u64).as_str(),
            );
            proof {
                length = seq![
                    Report {
                        rule: RULE_NAME_LENGTH@,
                        severity: Severity::Error,
                        line: line as nat,
                        message: msg@,
                    },
                ];
            }
            r.add(RULE_NAME_LENGTH, Severity::Error, line, msg);
        }
        let ghost r2 = *r;
        let ghost mut mismatch: Seq<Report> = seq![];
        proof {
            lemma_extends_none(r2);
        }
        match self.skill_dir(t.path.as_str()) {
            Some(dir) => {
                if !(dir == name) {
                    let msg: String = concat2(
                        concat2(quoted.as_str(), " does not match its directory ").as_str(),
                        quote(dir.as_str()).as_str(),
                    );
                    proof {
                        mismatch = seq![
                            Report {
                                rule: RULE_NAME_DIR_MISMATCH@,
                                severity: Severity::Warning,
                                line: line as nat,
                                message: msg@,
                            },
                        ];
                    }
                    r.add(RULE_NAME_DIR_MISMATCH, Severity::Warning, line, msg);
                }
            },
            None => {},
        }
        let ghost r3 = *r;
        check_budget(
            RULE_TOKENS_NAME,
            line,
            "name",
            tokens,
            self.cfg.max_skill_name_tokens,
            r,
        );
        proof {
            let budget = budget_reports(
                RULE_TOKENS_NAME@,
                line as nat,
                "name"@,
                tokens,
                self.cfg.max_skill_name_tokens,
            );
            lemma_extends_add(r0, r1, r2, format, length);
            lemma_extends_add(r0, r2, r3, format + length, mismatch);
            lemma_extends_add(r0, r3, *r, format + length + mismatch, budget);
            assert(full == format + length + mismatch + budget);
        }
    }

    fn check_description(&self, fm: &Frontmatter, tokens: usize, r: &mut Reporter)
        ensures
            extends(*old(r), *final(r), description_reports(self.cfg, *fm, tokens)),
    {
        let line: usize = fm.line("description");
        let description: String = match declared_string(fm, "description") {
            Some(description) => description,
            None => {
                r.add(
                    RULE_DESCRIPTION_REQUIRED,
                    Severity::Error,
                    line,
                    DESCRIPTION_REQUIRED_MESSAGE.to_owned(),
                );
                return;
            },
        };
        let ghost r0 = *r;
        let ghost full = description_reports(self.cfg, *fm, tokens);
        let ghost mut length: Seq<Report> = seq![];
        proof {
            lemma_extends_none(r0);
        }
        let n: usize = description.as_str().unicode_len();
        if n > MAX_DESCRIPTION_CHARS {
            let msg: String = over_limit_message(
                "description",
                humanize(n as i64).as_str(),
                "character",
                humanize(MAX_DESCRIPTION_CHARS as i64).as_str(),
            );
            proof {
                length = seq![
                    Report {
                        rule: RULE_DESCRIPTION_LENGTH@,
                        severity: Severity::Error,
                        line: line as nat,
                        message: msg@,
                    },
                ];
            }
            r.add(RULE_DESCRIPTION_LENGTH, Severity::Error, line, msg);
        }
        let ghost r1 = *r;
        check_budget(
            RULE_TOKENS_DESCRIPTION,
            line,
            "description",
            tokens,
            self.cfg.max_skill_description_tokens,
            r,
        );
        proof {
            let budget = budget_reports(
                RULE_TOKENS_DESCRIPTION@,
                line as nat,
                "description"@,
                tokens,
                self.cfg.max_skill_description_tokens,
            );
            lemma_extends_add(r0, r1, *r, length, budget);
            assert(full == length + budget);
        }
    }

    /// Flags references whose target looks like a local file but does not
    /// exist.
    fn check_file_references(
        &self,
        t: &Target,
        doc: &Document,
        existing: &Vec<FilePath>,
        r: &mut Reporter,
    )
        requires
            doc.countable(),
        ensures
            extends(
                *old(r),
                *final(r),
                missing_reports(file_references(self.cwd@, *t, *doc), paths(existing@)),
            ),
    {
        let references: Vec<Reference> = self.references(t, doc);
        let ghost all = file_references(self.cwd@, *t, *doc);
        let ghost found = paths(existing@);
        let ghost start = *r;
        let mut i: usize = 0;
        proof {
            lemma_extends_none(start);
            assert(missing_reports(all.take(0), found) =~= seq![]);
        }
        while i < references.len()
            invariant
                i <= references.len(),
                referred(references@) == all,
                found == paths(existing@),
                extends(start, *r, missing_reports(all.take(i as int), found)),
            decreases references.len() - i,
        {
            let reference: &Reference = &references[i];
            let ghost before = *r;
            proof {
                assert(all[i as int] == reference@);
                assert(all.take(i + 1).drop_last() =~= all.take(i as int));
                lemma_extends_none(before);
            }
            if !contains_path(existing, &reference.resolved) {
                let msg: String = concat2(
                    concat2("referenced file ", quote(reference.target.as_str()).as_str()).as_str(),
                    " does not exist",
                );
                r.add(RULE_FILE_REFERENCE_MISSING, Severity::Error, reference.line, msg);
            }
            proof {
                assert(extends(before, *r, reference_reports(reference@, found)));
                lemma_extends_add(
                    start,
                    before,
                    *r,
                    missing_reports(all.take(i as int), found),
                    reference_reports(reference@, found),
                );
            }
            i += 1;
        }
        assert(all.take(i as int) =~= all);
    }

    /// Collects the markdown links and path-shaped inline code spans of a file
    /// whose target looks like a local file, relative to the file's directory.
    /// Applies to both AGENTS.md and SKILL.md, since a dangling reference
    /// breaks the file's contract with the runtime regardless of kind.
    ///
    /// References resolving outside the linted tree are left alone, like URLs
    /// and absolute paths: a lint run often looks at a checkout that nobody
    /// trusts, and looking up whatever path a file names would turn its
    /// markdown into a probe for what exists on the host.
    pub fn references(&self, t: &Target, doc: &Document) -> (r: Vec<Reference>)
        requires
            doc.countable(),
        ensures
            referred(r@) == file_references(self.cwd(), *t, *doc),
    {
        let dir: FilePath = match FilePath::parse(t.path.as_str()).parent() {
            Some(dir) => dir,
            None => FilePath { components: Vec::new() },
        };
        let root: FilePath = self.abs_path(&t.root);
        let offset: usize = if doc.fm.present {
            doc.fm.end_line
        } else {
            0
        };
        let ghost scope = scope_of(self.cwd@, *t, doc.fm);
        assert(dir@ =~= scope.dir);
        let lines: Vec<String> = split(doc.body.as_str(), '\n');
        let ghost all = doc.lines();
        let mut fences: FenceTracker = FenceTracker::default();
        let mut out: Vec<Reference> = Vec::new();
        let mut i: usize = 0;
        proof {
            assert(texts(lines@).len() == lines@.len());
            assert(referred(out@) =~= scope.references(all.take(0)));
        }
        while i < lines.len()
            invariant
                i <= lines.len(),
                texts(lines@) == all,
                offset == scope.offset,
                offset + lines.len() <= usize::MAX,
                scope.cwd == self.cwd@,
                dir@ == scope.dir,
                root@ == scope.root,
                fences@ == fence_after(all.take(i as int)),
                referred(out@) == scope.references(all.take(i as int)),
            decreases lines.len() - i,
        {
            let line: &str = lines[i].as_str();
            let ghost before = referred(out@);
            proof {
                assert(all[i as int] == line@);
                assert(all.take(i + 1).drop_last() =~= all.take(i as int));
                assert(all.take(i + 1).last() == line@);
                assert(all.take(i + 1).len() == i + 1);
            }
            if fences.scan_line(line) {
                self.add_references(&dir, &root, offset + i + 1, line, Ghost(scope), &mut out);
            } else {
                assert(before + Seq::<ReferenceView>::empty() =~= before);
            }
            i += 1;
        }
        assert(all.take(i as int) =~= all);
        out
    }

    /// Appends the references of one line that stay in the tree.
    fn add_references(
        &self,
        dir: &FilePath,
        root: &FilePath,
        number: usize,
        line: &str,
        scope: Ghost<Scope>,
        out: &mut Vec<Reference>,
    )
        requires
            scope@.cwd == self.cwd@,
            scope@.dir == dir@,
            scope@.root == root@,
        ensures
            referred(final(out)@) == referred(old(out)@) + scope@.line_references(
                number as nat,
                line_targets(line@),
            ),
    {
        let targets: Vec<String> = targets_in_line(line);
        let ghost all = line_targets(line@);
        let ghost start = referred(out@);
        let mut i: usize = 0;
        assert(start + scope@.line_references(number as nat, all.take(0)) =~= start);
        while i < targets.len()
            invariant
                i <= targets.len(),
                texts(targets@) == all,
                scope@.cwd == self.cwd@,
                scope@.dir == dir@,
                scope@.root == root@,
                referred(out@) == start + scope@.line_references(
                    number as nat,
                    all.take(i as int),
                ),
            decreases targets.len() - i,
        {
            let ghost before = out@;
            proof {
                assert(all[i as int] == targets@[i as int]@);
                assert(all.take(i + 1).drop_last() =~= all.take(i as int));
            }
            // Resolved lexically, so deciding whether a reference escapes the
            // tree costs no file system access of its own.
            let resolved: FilePath = self.abs_path(
                &dir.join(&FilePath::parse(targets[i].as_str())),
            );
            if resolved.starts_with(root) {
                let reference: Reference = Reference {
                    line: number,
                    target: targets[i].clone(),
                    resolved,
                };
                out.push(reference);
                assert(referred(out@) =~= referred(before).push(reference@));
                assert(referred(out@) =~= start + scope@.line_references(
                    number as nat,
                    all.take(i + 1),
                ));
            }
            i += 1;
        }
        assert(all.take(i as int) =~= all);
    }

    /// Returns the name of the directory holding the skill file, or `None`
    /// when there is no meaningful directory to match the name against: a
    /// loose skill file in the working directory is named after the project,
    /// not the skill.
    fn skill_dir(&self, path: &str) -> (r: Option<String>)
        ensures
            match r {
                Some(name) => directory_name(self.cwd@, path@) == Some(name@),
                None => directory_name(self.cwd@, path@) is None,
            },
    {
        let abs: FilePath = self.abs_path(&FilePath::parse(path));
        match abs.parent() {
            Some(dir) => {
                if dir.same(&clean_path(&self.cwd)) {
                    None
                } else {
                    dir.file_name()
                }
            },
            None => None,
        }
    }

    /// Joins `path` onto the linter's working directory when relative and
    /// lexically normalizes it, without touching the file system or resolving
    /// symlinks.
    fn abs_path(&self, path: &FilePath) -> (r: FilePath)
        ensures
            r@ == resolved(self.cwd@, path@),
    {
        if path.is_absolute() {
            clean_path(path)
        } else {
            clean_path(&self.cwd.join(path))
        }
    }
}

/// Reports the keys of the front matter that are not known.
fn check_keys(fm: &Frontmatter, r: &mut Reporter)
    ensures
        extends(*old(r), *final(r), keys_reports(*fm, fm.fields@.len())),
{
    let ghost start = *r;
    let mut i: usize = 0;
    proof {
        lemma_extends_none(start);
    }
    while i < fm.fields.len()
        invariant
            i <= fm.fields.len(),
            extends(start, *r, keys_reports(*fm, i as nat)),
        decreases fm.fields.len() - i,
    {
        let key: &str = fm.fields[i].key.as_str();
        let ghost before = *r;
        proof {
            lemma_extends_none(before);
        }
        if !is_known_key(key) {
            r.add(
                RULE_FRONTMATTER_UNKNOWN_KEY,
                Severity::Warning,
                fm.line(key),
                concat2("unknown front-matter key ", quote(key).as_str()),
            );
        }
        proof {
            assert(extends(before, *r, key_reports(*fm, key@)));
            lemma_extends_add(
                start,
                before,
                *r,
                keys_reports(*fm, i as nat),
                key_reports(*fm, key@),
            );
        }
        i += 1;
    }
}

/// Reports allowed tools that are not a list of names.
fn check_allowed_tools(fm: &Frontmatter, r: &mut Reporter)
    ensures
        extends(*old(r), *final(r), allowed_tools_reports(*fm)),
{
    proof {
        lemma_extends_none(*r);
    }
    if !fm.has("allowed-tools") {
        return;
    }
    if !fm.is_string_slice("allowed-tools") {
        r.add(
            RULE_ALLOWED_TOOLS_TYPE,
            Severity::Error,
            fm.line("allowed-tools"),
            ALLOWED_TOOLS_MESSAGE.to_owned(),
        );
    }
}

/// Reports metadata that is not a mapping.
fn check_metadata(fm: &Frontmatter, r: &mut Reporter)
    ensures
        extends(*old(r), *final(r), metadata_reports(*fm)),
{
    proof {
        lemma_extends_none(*r);
    }
    match fm.node("metadata") {
        None => {},
        Some(Value::Mapping) => {},
        Some(_) => {
            r.add(
                RULE_METADATA_TYPE,
                Severity::Error,
                fm.line("metadata"),
                METADATA_MESSAGE.to_owned(),
            );
        },
    }
}

/// What references say is what each of them says, in order.
pub proof fn law_referred_in_order(references: Seq<Reference>)
    ensures
        referred(references).len() == references.len(),
        forall|i: int|
            0 <= i < references.len() ==> (#[trigger] referred(references)[i]).line
                == references[i].line && referred(references)[i].target == references[i].target@
                && referred(references)[i].resolved == references[i].resolved@,
{
}

} // verus!
