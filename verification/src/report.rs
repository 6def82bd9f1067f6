//! What the rules say of a file, and how what they say becomes findings.
use crate::config::{Config, MAX_DESCRIPTION_CHARS, MAX_NAME_CHARS};
use crate::discover::{Kind, Target};
use crate::fence::{fence_after, prose};
use crate::finding::{Counts, FindingView, Severity};
use crate::format::{debug_quoted, decimal, humanized};
use crate::parse::{Document, ErrKind, Error, Frontmatter};
use crate::path::{cleaned, joined, last_name, parent_of, path_steps, resolved, Step};
use crate::patterns::name_format;
use crate::reference::line_targets;
use crate::rules::{
    by_rule, RULE_ALLOWED_TOOLS_TYPE, RULE_DESCRIPTION_LENGTH, RULE_DESCRIPTION_REQUIRED,
    RULE_FILE_REFERENCE_MISSING, RULE_FRONTMATTER_INVALID, RULE_FRONTMATTER_MISSING,
    RULE_FRONTMATTER_NOT_FIRST, RULE_FRONTMATTER_UNKNOWN_KEY, RULE_FRONTMATTER_UNTERMINATED,
    RULE_METADATA_TYPE, RULE_NAME_DIR_MISMATCH, RULE_NAME_FORMAT, RULE_NAME_LENGTH,
    RULE_NAME_REQUIRED, RULE_TOKENS_CONTENT, RULE_TOKENS_DESCRIPTION, RULE_TOKENS_NAME,
};
use crate::text::{texts, trimmed};
use vstd::prelude::*;

verus! {

/// The front-matter keys that the skill format defines, and the extensions
/// that are supported besides. Anything else is reported as an unknown key.
pub const KNOWN_KEYS: [&'static str; 8] = [
    "name",
    "description",
    "license",
    "compatibility",
    "metadata",
    "allowed-tools",
    "disable-model-invocation",
    "argument-hint",
];

pub const MISSING_MESSAGE: &'static str =
    "missing YAML front matter: a skill must open with a --- fenced block declaring name and description";

pub const NAME_REQUIRED_MESSAGE: &'static str = "front matter must declare a non-empty string name";

pub const DESCRIPTION_REQUIRED_MESSAGE: &'static str =
    "front matter must declare a non-empty string description saying when to use the skill";

pub const ALLOWED_TOOLS_MESSAGE: &'static str =
    "allowed-tools must be a list of tool names or a comma-separated string";

pub const METADATA_MESSAGE: &'static str = "metadata must be a mapping of keys to values";

/// What a rule says of a file.
#[verifier::ext_equal]
pub struct Report {
    pub rule: Seq<char>,
    pub severity: Severity,
    pub line: nat,
    pub message: Seq<char>,
}

/// The report, where the condition holds.
pub open spec fn report_if(condition: bool, report: Report) -> Seq<Report> {
    if condition {
        seq![report]
    } else {
        seq![]
    }
}

/// "`part` is `count` `unit`s, over the `limit` `unit` limit".
pub open spec fn over_limit(
    part: Seq<char>,
    count: Seq<char>,
    unit: Seq<char>,
    limit: Seq<char>,
) -> Seq<char> {
    part + " is "@ + count + " "@ + unit + "s, over the "@ + limit + " "@ + unit + " limit"@
}

/// Whether a token count is over a budget that is not switched off.
pub open spec fn over_budget(count: usize, budget: i64) -> bool {
    budget > 0 && count as i64 > budget
}

/// What a token budget rule says.
pub open spec fn budget_reports(
    rule: Seq<char>,
    line: nat,
    part: Seq<char>,
    count: usize,
    budget: i64,
) -> Seq<Report> {
    report_if(
        over_budget(count, budget),
        Report {
            rule,
            severity: Severity::Error,
            line,
            message: over_limit(
                part,
                humanized((count as i64) as int),
                "token"@,
                humanized(budget as int),
            ),
        },
    )
}

/// The rule that a front-matter error breaks.
pub open spec fn error_rule(kind: ErrKind) -> Seq<char> {
    match kind {
        ErrKind::NotFirst => RULE_FRONTMATTER_NOT_FIRST@,
        ErrKind::Unterminated => RULE_FRONTMATTER_UNTERMINATED@,
        ErrKind::Invalid => RULE_FRONTMATTER_INVALID@,
    }
}

/// What is said of front matter that could not be read.
pub open spec fn error_report(err: Error) -> Report {
    Report {
        rule: error_rule(err.kind),
        severity: Severity::Error,
        line: err.line as nat,
        message: err.msg@,
    }
}

/// Whether the key is one that front matter may have.
pub open spec fn known_key(key: Seq<char>) -> bool {
    exists|i: int| 0 <= i < 8 && (#[trigger] KNOWN_KEYS[i])@ == key
}

/// What is said of a key of the front matter.
pub open spec fn key_reports(fm: Frontmatter, key: Seq<char>) -> Seq<Report> {
    report_if(
        !known_key(key),
        Report {
            rule: RULE_FRONTMATTER_UNKNOWN_KEY@,
            severity: Severity::Warning,
            line: fm.line_of(key),
            message: "unknown front-matter key "@ + debug_quoted(key),
        },
    )
}

/// What is said of the keys of the first `n` fields.
pub open spec fn keys_reports(fm: Frontmatter, n: nat) -> Seq<Report>
    decreases n,
{
    if n == 0 {
        seq![]
    } else {
        keys_reports(fm, (n - 1) as nat) + key_reports(fm, fm.fields@[n - 1].key@)
    }
}

/// The string that the front matter declares under `key`, without the white
/// space around it; none where it is not a string or nothing is left.
pub open spec fn declared(fm: Frontmatter, key: Seq<char>) -> Option<Seq<char>> {
    match fm.text_of(key) {
        Some(text) => if trimmed(text).len() > 0 {
            Some(trimmed(text))
        } else {
            None
        },
        None => None,
    }
}

/// The name of the directory that holds the file; none where there is no
/// meaningful directory to match a skill's name against: a loose skill file in
/// the working directory is named after the project, not the skill.
pub open spec fn directory_name(cwd: Seq<Step>, path: Seq<char>) -> Option<Seq<char>> {
    match parent_of(resolved(cwd, path_steps(path))) {
        Some(dir) => if dir == cleaned(cwd) {
            None
        } else {
            last_name(dir)
        },
        None => None,
    }
}

/// What is said of a skill's name.
pub open spec fn name_reports(
    cfg: Config,
    dir: Option<Seq<char>>,
    fm: Frontmatter,
    tokens: usize,
) -> Seq<Report> {
    let line = fm.line_of("name"@);
    match declared(fm, "name"@) {
        None => seq![
            Report {
                rule: RULE_NAME_REQUIRED@,
                severity: Severity::Error,
                line,
                message: NAME_REQUIRED_MESSAGE@,
            },
        ],
        Some(name) => {
            report_if(
                !name_format(name),
                Report {
                    rule: RULE_NAME_FORMAT@,
                    severity: Severity::Error,
                    line,
                    message: "name "@ + debug_quoted(name)
                        + " must be lowercase letters, digits and single hyphens (for example my-skill)"@,
                },
            ) + report_if(
                name.len() > MAX_NAME_CHARS,
                Report {
                    rule: RULE_NAME_LENGTH@,
                    severity: Severity::Error,
                    line,
                    message: over_limit(
                        "name"@,
                        decimal(name.len()),
                        "character"@,
                        decimal(MAX_NAME_CHARS as nat),
                    ),
                },
            ) + report_if(
                dir is Some && dir != Some(name),
                Report {
                    rule: RULE_NAME_DIR_MISMATCH@,
                    severity: Severity::Warning,
                    line,
                    message: "name "@ + debug_quoted(name) + " does not match its directory "@
                        + debug_quoted(dir->0),
                },
            ) + budget_reports(
                RULE_TOKENS_NAME@,
                line,
                "name"@,
                tokens,
                cfg.max_skill_name_tokens,
            )
        },
    }
}

/// What is said of a skill's description.
pub open spec fn description_reports(cfg: Config, fm: Frontmatter, tokens: usize) -> Seq<Report> {
    let line = fm.line_of("description"@);
    match declared(fm, "description"@) {
        None => seq![
            Report {
                rule: RULE_DESCRIPTION_REQUIRED@,
                severity: Severity::Error,
                line,
                message: DESCRIPTION_REQUIRED_MESSAGE@,
            },
        ],
        Some(description) => {
            report_if(
                description.len() > MAX_DESCRIPTION_CHARS,
                Report {
                    rule: RULE_DESCRIPTION_LENGTH@,
                    severity: Severity::Error,
                    line,
                    message: over_limit(
                        "description"@,
                        humanized((description.len() as i64) as int),
                        "character"@,
                        humanized(MAX_DESCRIPTION_CHARS as int),
                    ),
                },
            ) + budget_reports(
                RULE_TOKENS_DESCRIPTION@,
                line,
                "description"@,
                tokens,
                cfg.max_skill_description_tokens,
            )
        },
    }
}

/// What is said of a skill's allowed tools.
pub open spec fn allowed_tools_reports(fm: Frontmatter) -> Seq<Report> {
    report_if(
        fm.field("allowed-tools"@) is Some && !fm.lists_strings("allowed-tools"@),
        Report {
            rule: RULE_ALLOWED_TOOLS_TYPE@,
            severity: Severity::Error,
            line: fm.line_of("allowed-tools"@),
            message: ALLOWED_TOOLS_MESSAGE@,
        },
    )
}

/// What is said of a skill's metadata.
pub open spec fn metadata_reports(fm: Frontmatter) -> Seq<Report> {
    report_if(
        fm.field("metadata"@) matches Some(field) && !(field.value is Mapping),
        Report {
            rule: RULE_METADATA_TYPE@,
            severity: Severity::Error,
            line: fm.line_of("metadata"@),
            message: METADATA_MESSAGE@,
        },
    )
}

/// What is said of a skill's front matter.
pub open spec fn skill_reports(
    cfg: Config,
    dir: Option<Seq<char>>,
    doc: Document,
    tokens: Counts,
) -> Seq<Report> {
    match doc.err {
        Some(err) => seq![error_report(err)],
        None => if !doc.fm.present {
            seq![
                Report {
                    rule: RULE_FRONTMATTER_MISSING@,
                    severity: Severity::Error,
                    line: 1,
                    message: MISSING_MESSAGE@,
                },
            ]
        } else {
            keys_reports(doc.fm, doc.fm.fields@.len()) + name_reports(
                cfg,
                dir,
                doc.fm,
                tokens.name,
            ) + description_reports(cfg, doc.fm, tokens.description) + allowed_tools_reports(
                doc.fm,
            ) + metadata_reports(doc.fm)
        },
    }
}

/// What is said of the front matter of an `AGENTS.md`: it is not validated, but
/// one that never ends is reported.
pub open spec fn agents_reports(doc: Document) -> Seq<Report> {
    match doc.err {
        Some(err) => report_if(err.kind == ErrKind::Unterminated, error_report(err)),
        None => seq![],
    }
}

/// A reference to a file that is to exist.
#[verifier::ext_equal]
pub struct ReferenceView {
    /// The line in the file, from 1.
    pub line: nat,
    /// The file, as it is referred to.
    pub target: Seq<char>,
    /// The file that is meant.
    pub resolved: Seq<Step>,
}

/// Where a file's references are read.
pub struct Scope {
    /// The working directory.
    pub cwd: Seq<Step>,
    /// The directory that holds the file.
    pub dir: Seq<Step>,
    /// The tree that the file was found in.
    pub root: Seq<Step>,
    /// How many lines come before the body.
    pub offset: nat,
}

/// Where the references of a target are read.
pub open spec fn scope_of(cwd: Seq<Step>, t: Target, fm: Frontmatter) -> Scope {
    Scope {
        cwd,
        dir: match parent_of(path_steps(t.path@)) {
            Some(dir) => dir,
            None => seq![],
        },
        root: resolved(cwd, t.root@),
        offset: fm.body_offset(),
    }
}

impl Scope {
    /// The file that a target means.
    pub open spec fn place(self, target: Seq<char>) -> Seq<Step> {
        resolved(self.cwd, joined(self.dir, path_steps(target)))
    }

    /// The references that the targets of one line make: those that stay in
    /// the tree.
    pub open spec fn line_references(self, line: nat, targets: Seq<Seq<char>>) -> Seq<
        ReferenceView,
    >
        decreases targets.len(),
    {
        if targets.len() == 0 {
            seq![]
        } else {
            let front = self.line_references(line, targets.drop_last());
            let target = targets.last();
            if self.root.is_prefix_of(self.place(target)) {
                front.push(ReferenceView { line, target, resolved: self.place(target) })
            } else {
                front
            }
        }
    }

    /// The references in the lines of a body, fenced code blocks left out.
    pub open spec fn references(self, lines: Seq<Seq<char>>) -> Seq<ReferenceView>
        decreases lines.len(),
    {
        if lines.len() == 0 {
            seq![]
        } else {
            let front = lines.drop_last();
            self.references(front) + if prose(fence_after(front), lines.last()) {
                self.line_references(self.offset + lines.len(), line_targets(lines.last()))
            } else {
                seq![]
            }
        }
    }
}

/// The references in a file.
pub open spec fn file_references(cwd: Seq<Step>, t: Target, doc: Document) -> Seq<ReferenceView> {
    scope_of(cwd, t, doc.fm).references(doc.lines())
}

/// What is said of a reference, `existing` being the files that exist.
pub open spec fn reference_reports(reference: ReferenceView, existing: Seq<Seq<Step>>) -> Seq<
    Report,
> {
    report_if(
        !existing.contains(reference.resolved),
        Report {
            rule: RULE_FILE_REFERENCE_MISSING@,
            severity: Severity::Error,
            line: reference.line,
            message: "referenced file "@ + debug_quoted(reference.target) + " does not exist"@,
        },
    )
}

/// What is said of references.
pub open spec fn missing_reports(
    references: Seq<ReferenceView>,
    existing: Seq<Seq<Step>>,
) -> Seq<Report>
    decreases references.len(),
{
    if references.len() == 0 {
        seq![]
    } else {
        missing_reports(references.drop_last(), existing) + reference_reports(
            references.last(),
            existing,
        )
    }
}

/// What is said of a file's front matter.
pub open spec fn front_reports(
    cfg: Config,
    cwd: Seq<Step>,
    t: Target,
    doc: Document,
    tokens: Counts,
) -> Seq<Report> {
    match t.kind {
        Kind::Skill => skill_reports(cfg, directory_name(cwd, t.path@), doc, tokens),
        Kind::Agents => agents_reports(doc),
    }
}

/// Everything that is said of a file.
pub open spec fn file_reports(
    cfg: Config,
    cwd: Seq<Step>,
    t: Target,
    doc: Document,
    tokens: Counts,
    existing: Seq<Seq<Step>>,
) -> Seq<Report> {
    front_reports(cfg, cwd, t, doc, tokens) + missing_reports(
        file_references(cwd, t, doc),
        existing,
    ) + budget_reports(
        RULE_TOKENS_CONTENT@,
        0,
        "content"@,
        tokens.content,
        cfg.body_budget(t.kind),
    )
}

/// Whether a report's rule is not switched off.
pub open spec fn enabled(cfg: Config) -> spec_fn(Report) -> bool {
    |r: Report| !texts(cfg.disabled@).contains(r.rule)
}

/// The finding that a report makes in a file.
pub open spec fn finding_in(cfg: Config, path: Seq<char>) -> spec_fn(Report) -> FindingView {
    |r: Report|
        FindingView {
            file: path,
            line: r.line,
            rule: r.rule,
            severity: if cfg.strict {
                Severity::Error
            } else {
                r.severity
            },
            message: r.message,
        }
}

/// The findings that reports make: rules that are switched off make none, and
/// a strict run knows only errors.
pub open spec fn findings_of(cfg: Config, path: Seq<char>, reports: Seq<Report>) -> Seq<
    FindingView,
> {
    reports.filter(enabled(cfg)).map_values(finding_in(cfg, path))
}

/// The findings in a file, in report order.
pub open spec fn file_findings(
    cfg: Config,
    cwd: Seq<Step>,
    t: Target,
    doc: Document,
    tokens: Counts,
    existing: Seq<Seq<Step>>,
) -> Seq<FindingView> {
    by_rule(findings_of(cfg, t.path@, file_reports(cfg, cwd, t, doc, tokens, existing)))
}

/// Reports one after the other make their findings one after the other.
pub proof fn lemma_findings_add(cfg: Config, path: Seq<char>, a: Seq<Report>, b: Seq<Report>)
    ensures
        findings_of(cfg, path, a + b) == findings_of(cfg, path, a) + findings_of(cfg, path, b),
{
    Seq::filter_distributes_over_add(a, b, enabled(cfg));
    assert(findings_of(cfg, path, a + b) =~= findings_of(cfg, path, a) + findings_of(cfg, path, b));
}

/// No reports make no findings.
pub proof fn lemma_findings_none(cfg: Config, path: Seq<char>)
    ensures
        findings_of(cfg, path, seq![]) == Seq::<FindingView>::empty(),
{
    reveal(Seq::filter);
    assert(findings_of(cfg, path, seq![]) =~= Seq::<FindingView>::empty());
}

/// What one report makes.
pub proof fn lemma_findings_one(cfg: Config, path: Seq<char>, report: Report)
    ensures
        findings_of(cfg, path, seq![report]) == if texts(cfg.disabled@).contains(report.rule) {
            Seq::<FindingView>::empty()
        } else {
            seq![finding_in(cfg, path)(report)]
        },
{
    reveal(Seq::filter);
    let one = seq![report];
    assert(one.drop_last() =~= Seq::<Report>::empty());
    assert(one.drop_last().filter(enabled(cfg)) =~= Seq::<Report>::empty());
    if texts(cfg.disabled@).contains(report.rule) {
        assert(one.filter(enabled(cfg)) =~= Seq::<Report>::empty());
        assert(findings_of(cfg, path, one) =~= Seq::<FindingView>::empty());
    } else {
        assert(one.filter(enabled(cfg)) =~= one);
        assert(findings_of(cfg, path, one) =~= seq![finding_in(cfg, path)(report)]);
    }
}

} // verus!
