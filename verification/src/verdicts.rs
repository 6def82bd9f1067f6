//! What each rule finds in a file, finding by finding.
use crate::config::{Config, MAX_DESCRIPTION_CHARS, MAX_NAME_CHARS};
use crate::discover::{Kind, Target};
use crate::fence::{fence_after, prose};
use crate::finding::{Counts, FindingView, Severity};
use crate::format::{debug_quoted, decimal, humanized, law_humanized_groups};
use crate::laws::{
    law_reported_rules_are_known, law_rules_are_distinct, lemma_ranked_filters, reported, skill_read,
};
use crate::lint::measured;
use crate::parse::{Document, ErrKind, Field, Frontmatter};
use crate::path::{
    cleaned, joined, law_current_adds_nothing, law_joining, law_parent_and_name, law_resolving,
    path_steps, resolved, Step,
};
use crate::patterns::name_format;
use crate::reference::line_targets;
use crate::report::{
    allowed_tools_reports, budget_reports, declared, description_reports, directory_name,
    file_findings, file_references, file_reports, finding_in, findings_of, front_reports,
    key_reports, keys_reports, known_key, lemma_findings_add, lemma_findings_none,
    lemma_findings_one, metadata_reports, missing_reports, name_reports, over_limit,
    reference_reports, report_if, scope_of, ReferenceView, Report, Scope, KNOWN_KEYS,
};
use crate::rules::{
    by_rule, law_report_order, lemma_rank_among, of_rank, rank, ranked, RULE_ALLOWED_TOOLS_TYPE,
    RULE_DESCRIPTION_LENGTH, RULE_DESCRIPTION_REQUIRED, RULE_FILE_REFERENCE_MISSING,
    RULE_FRONTMATTER_INVALID, RULE_FRONTMATTER_MISSING, RULE_FRONTMATTER_NOT_FIRST,
    RULE_FRONTMATTER_UNKNOWN_KEY, RULE_FRONTMATTER_UNTERMINATED, RULE_METADATA_TYPE,
    RULE_NAME_DIR_MISMATCH, RULE_NAME_FORMAT, RULE_NAME_LENGTH, RULE_NAME_REQUIRED,
    RULE_TOKENS_CONTENT, RULE_TOKENS_DESCRIPTION, RULE_TOKENS_NAME,
};
use crate::text::{law_trimming, split_by, texts, white_space};
use crate::tokens::Counter;
use vstd::prelude::*;

verus! {

/// Whether a finding is of the rule.
pub open spec fn of_rule(rule: Seq<char>) -> spec_fn(FindingView) -> bool {
    |f: FindingView| f.rule == rule
}

/// Whether a report is of the rule.
spec fn says_rule(rule: Seq<char>) -> spec_fn(Report) -> bool {
    |r: Report| r.rule == rule
}

/// Whether the rule is among those that are switched off.
pub open spec fn off(cfg: Config, rule: Seq<char>) -> bool {
    exists|i: int| 0 <= i < cfg.disabled@.len() && (#[trigger] cfg.disabled@[i])@ == rule
}

proof fn lemma_off(cfg: Config, rule: Seq<char>)
    ensures
        off(cfg, rule) <==> texts(cfg.disabled@).contains(rule),
{
    let ids = texts(cfg.disabled@);
    if off(cfg, rule) {
        let i = choose|i: int| 0 <= i < cfg.disabled@.len() && (#[trigger] cfg.disabled@[i])@ == rule;
        assert(ids[i] == rule);
    }
    if ids.contains(rule) {
        let i = choose|i: int| 0 <= i < ids.len() && ids[i] == rule;
        assert(cfg.disabled@[i]@ == rule);
    }
}

proof fn lemma_filter_none<A>(s: Seq<A>, p: spec_fn(A) -> bool)
    requires
        forall|i: int| 0 <= i < s.len() ==> !p(#[trigger] s[i]),
    ensures
        s.filter(p) == Seq::<A>::empty(),
    decreases s.len(),
{
    reveal(Seq::filter);
    if s.len() > 0 {
        let front = s.drop_last();
        assert forall|i: int| 0 <= i < front.len() implies !p(#[trigger] front[i]) by {
            assert(front[i] == s[i]);
        }
        assert(!p(s[s.len() - 1]));
        lemma_filter_none(front, p);
    }
}

proof fn lemma_filter_all<A>(s: Seq<A>, p: spec_fn(A) -> bool)
    requires
        forall|i: int| 0 <= i < s.len() ==> p(#[trigger] s[i]),
    ensures
        s.filter(p) == s,
    decreases s.len(),
{
    reveal(Seq::filter);
    if s.len() > 0 {
        let front = s.drop_last();
        assert forall|i: int| 0 <= i < front.len() implies p(#[trigger] front[i]) by {
            assert(front[i] == s[i]);
        }
        assert(p(s[s.len() - 1]));
        lemma_filter_all(front, p);
        assert(front.push(s.last()) =~= s);
    }
}

proof fn lemma_filter_one<A>(a: A, p: spec_fn(A) -> bool)
    ensures
        seq![a].filter(p) == if p(a) {
            seq![a]
        } else {
            Seq::empty()
        },
{
    if p(a) {
        lemma_filter_all(seq![a], p);
    } else {
        lemma_filter_none(seq![a], p);
    }
}

/// Findings of one rule are in report order already.
proof fn lemma_ranked_same(findings: Seq<FindingView>, rule: Seq<char>, n: nat)
    requires
        forall|i: int| 0 <= i < findings.len() ==> (#[trigger] findings[i]).rule == rule,
    ensures
        ranked(findings, n) == if rank(rule) < n {
            findings
        } else {
            Seq::empty()
        },
    decreases n,
{
    if n > 0 {
        let k = (n - 1) as nat;
        lemma_ranked_same(findings, rule, k);
        if rank(rule) == k {
            lemma_filter_all(findings, of_rank(k));
        } else {
            lemma_filter_none(findings, of_rank(k));
        }
        assert(ranked(findings, n) =~= if rank(rule) < n {
            findings
        } else {
            Seq::empty()
        });
    }
}

/// Ordering leaves the findings of a rule as they came.
proof fn lemma_order_keeps_rule(findings: Seq<FindingView>, rule: Seq<char>)
    ensures
        by_rule(findings).filter(of_rule(rule)) == findings.filter(of_rule(rule)),
{
    let p = of_rule(rule);
    let some = findings.filter(p);
    lemma_ranked_filters(findings, p, 18);
    lemma_rank_among(rule, 17);
    assert forall|i: int| 0 <= i < some.len() implies (#[trigger] some[i]).rule == rule by {
        findings.lemma_filter_pred(p, i);
    }
    lemma_ranked_same(some, rule, 18);
}

/// The findings of a rule are those that its reports make.
proof fn lemma_findings_of_rule(cfg: Config, path: Seq<char>, reports: Seq<Report>, rule: Seq<char>)
    ensures
        findings_of(cfg, path, reports).filter(of_rule(rule)) == if off(cfg, rule) {
            Seq::empty()
        } else {
            reports.filter(says_rule(rule)).map_values(finding_in(cfg, path))
        },
    decreases reports.len(),
{
    let make = finding_in(cfg, path);
    let said = says_rule(rule);
    let found = of_rule(rule);
    lemma_off(cfg, rule);
    if reports.len() == 0 {
        assert(reports =~= seq![]);
        lemma_findings_none(cfg, path);
        lemma_filter_none(findings_of(cfg, path, reports), found);
        lemma_filter_none(reports, said);
        assert(reports.filter(said).map_values(make) =~= Seq::empty());
    } else {
        let front = reports.drop_last();
        let last = reports.last();
        assert(reports =~= front + seq![last]);
        lemma_findings_of_rule(cfg, path, front, rule);
        lemma_findings_add(cfg, path, front, seq![last]);
        lemma_findings_one(cfg, path, last);
        lemma_filter_one(make(last), found);
        lemma_filter_one(last, said);
        lemma_filter_none(Seq::<FindingView>::empty(), found);
        Seq::filter_distributes_over_add(
            findings_of(cfg, path, front),
            findings_of(cfg, path, seq![last]),
            found,
        );
        Seq::filter_distributes_over_add(front, seq![last], said);
        assert(findings_of(cfg, path, reports).filter(found) =~= if off(cfg, rule) {
            Seq::empty()
        } else {
            reports.filter(said).map_values(make)
        });
    }
}

/// What is said under a condition, by rule.
proof fn lemma_if_filter(condition: bool, report: Report, rule: Seq<char>)
    ensures
        report_if(condition, report).filter(says_rule(rule)) == if condition && report.rule == rule {
            seq![report]
        } else {
            Seq::empty()
        },
{
    lemma_filter_one(report, says_rule(rule));
    lemma_filter_none(Seq::<Report>::empty(), says_rule(rule));
}

proof fn lemma_add_filter(a: Seq<Report>, b: Seq<Report>, rule: Seq<char>)
    ensures
        (a + b).filter(says_rule(rule)) == a.filter(says_rule(rule)) + b.filter(says_rule(rule)),
{
    Seq::filter_distributes_over_add(a, b, says_rule(rule));
}

proof fn lemma_keys_rule(fm: Frontmatter, n: nat)
    ensures
        forall|i: int|
            0 <= i < keys_reports(fm, n).len() ==> (#[trigger] keys_reports(fm, n)[i]).rule
                == RULE_FRONTMATTER_UNKNOWN_KEY@,
    decreases n,
{
    if n > 0 {
        lemma_keys_rule(fm, (n - 1) as nat);
    }
}

proof fn lemma_missing_rule(references: Seq<ReferenceView>, existing: Seq<Seq<Step>>)
    ensures
        forall|i: int|
            0 <= i < missing_reports(references, existing).len() ==> (#[trigger] missing_reports(
                references,
                existing,
            )[i]).rule == RULE_FILE_REFERENCE_MISSING@,
    decreases references.len(),
{
    if references.len() > 0 {
        lemma_missing_rule(references.drop_last(), existing);
    }
}

/// The findings of a rule in a file: what the front matter, the references and
/// the body's budget say of it.
proof fn lemma_file_rule(
    cfg: Config,
    cwd: Seq<Step>,
    t: Target,
    doc: Document,
    tokens: Counts,
    existing: Seq<Seq<Step>>,
    rule: Seq<char>,
)
    ensures
        file_findings(cfg, cwd, t, doc, tokens, existing).filter(of_rule(rule)) == if off(cfg, rule) {
            Seq::empty()
        } else {
            (front_reports(cfg, cwd, t, doc, tokens).filter(says_rule(rule)) + (if rule
                == RULE_FILE_REFERENCE_MISSING@ {
                missing_reports(file_references(cwd, t, doc), existing)
            } else {
                Seq::empty()
            }) + (if rule == RULE_TOKENS_CONTENT@ {
                budget_reports(
                    RULE_TOKENS_CONTENT@,
                    0,
                    "content"@,
                    tokens.content,
                    cfg.body_budget(t.kind),
                )
            } else {
                Seq::empty()
            })).map_values(finding_in(cfg, t.path@))
        },
{
    let front = front_reports(cfg, cwd, t, doc, tokens);
    let references = file_references(cwd, t, doc);
    let missing = missing_reports(references, existing);
    let budget = budget_reports(
        RULE_TOKENS_CONTENT@,
        0,
        "content"@,
        tokens.content,
        cfg.body_budget(t.kind),
    );
    let reports = file_reports(cfg, cwd, t, doc, tokens, existing);
    lemma_order_keeps_rule(findings_of(cfg, t.path@, reports), rule);
    lemma_findings_of_rule(cfg, t.path@, reports, rule);
    lemma_add_filter(front, missing, rule);
    lemma_add_filter(front + missing, budget, rule);
    lemma_missing_rule(references, existing);
    if rule == RULE_FILE_REFERENCE_MISSING@ {
        lemma_filter_all(missing, says_rule(rule));
    } else {
        lemma_filter_none(missing, says_rule(rule));
    }
    if rule == RULE_TOKENS_CONTENT@ {
        lemma_filter_all(budget, says_rule(rule));
    } else {
        lemma_filter_none(budget, says_rule(rule));
    }
}

/// What the front matter says of a rule, where it was read.
proof fn lemma_front_rule(
    cfg: Config,
    cwd: Seq<Step>,
    t: Target,
    doc: Document,
    tokens: Counts,
    rule: Seq<char>,
)
    requires
        t.kind == Kind::Skill,
        doc.err is None,
        doc.fm.present,
    ensures
        front_reports(cfg, cwd, t, doc, tokens).filter(says_rule(rule)) == (if rule
            == RULE_FRONTMATTER_UNKNOWN_KEY@ {
            keys_reports(doc.fm, doc.fm.fields@.len())
        } else {
            Seq::empty()
        }) + name_reports(cfg, directory_name(cwd, t.path@), doc.fm, tokens.name).filter(
            says_rule(rule),
        ) + description_reports(cfg, doc.fm, tokens.description).filter(says_rule(rule)) + (if rule
            == RULE_ALLOWED_TOOLS_TYPE@ {
            allowed_tools_reports(doc.fm)
        } else {
            Seq::empty()
        }) + (if rule == RULE_METADATA_TYPE@ {
            metadata_reports(doc.fm)
        } else {
            Seq::empty()
        }),
{
    let fm = doc.fm;
    let keys = keys_reports(fm, fm.fields@.len());
    let name = name_reports(cfg, directory_name(cwd, t.path@), fm, tokens.name);
    let description = description_reports(cfg, fm, tokens.description);
    let tools = allowed_tools_reports(fm);
    let metadata = metadata_reports(fm);
    lemma_add_filter(keys, name, rule);
    lemma_add_filter(keys + name, description, rule);
    lemma_add_filter(keys + name + description, tools, rule);
    lemma_add_filter(keys + name + description + tools, metadata, rule);
    lemma_keys_rule(fm, fm.fields@.len());
    if rule == RULE_FRONTMATTER_UNKNOWN_KEY@ {
        lemma_filter_all(keys, says_rule(rule));
    } else {
        lemma_filter_none(keys, says_rule(rule));
    }
    if rule == RULE_ALLOWED_TOOLS_TYPE@ {
        lemma_filter_all(tools, says_rule(rule));
    } else {
        lemma_filter_none(tools, says_rule(rule));
    }
    if rule == RULE_METADATA_TYPE@ {
        lemma_filter_all(metadata, says_rule(rule));
    } else {
        lemma_filter_none(metadata, says_rule(rule));
    }
}

/// What a name says of a rule.
proof fn lemma_name_rule(
    cfg: Config,
    dir: Option<Seq<char>>,
    fm: Frontmatter,
    tokens: usize,
    rule: Seq<char>,
)
    ensures
        name_reports(cfg, dir, fm, tokens).filter(says_rule(rule)) == {
            let line = fm.line_of("name"@);
            match declared(fm, "name"@) {
                None => if rule == RULE_NAME_REQUIRED@ {
                    name_reports(cfg, dir, fm, tokens)
                } else {
                    Seq::empty()
                },
                Some(name) => if rule == RULE_NAME_FORMAT@ && !name_format(name) {
                    seq![
                        Report {
                            rule,
                            severity: Severity::Error,
                            line,
                            message: "name "@ + debug_quoted(name)
                                + " must be lowercase letters, digits and single hyphens (for example my-skill)"@,
                        },
                    ]
                } else if rule == RULE_NAME_LENGTH@ && name.len() > MAX_NAME_CHARS {
                    seq![
                        Report {
                            rule,
                            severity: Severity::Error,
                            line,
                            message: over_limit(
                                "name"@,
                                decimal(name.len()),
                                "character"@,
                                decimal(MAX_NAME_CHARS as nat),
                            ),
                        },
                    ]
                } else if rule == RULE_NAME_DIR_MISMATCH@ && dir is Some && dir != Some(name) {
                    seq![
                        Report {
                            rule,
                            severity: Severity::Warning,
                            line,
                            message: "name "@ + debug_quoted(name)
                                + " does not match its directory "@ + debug_quoted(dir->0),
                        },
                    ]
                } else if rule == RULE_TOKENS_NAME@ {
                    budget_reports(rule, line, "name"@, tokens, cfg.max_skill_name_tokens)
                } else {
                    Seq::empty()
                },
            }
        },
{
    law_rules_are_distinct();
    let line = fm.line_of("name"@);
    let reports = name_reports(cfg, dir, fm, tokens);
    match declared(fm, "name"@) {
        None => {
            lemma_filter_one(reports[0], says_rule(rule));
            assert(reports =~= seq![reports[0]]);
        },
        Some(name) => {
            let r1 = Report {
                rule: RULE_NAME_FORMAT@,
                severity: Severity::Error,
                line,
                message: "name "@ + debug_quoted(name)
                    + " must be lowercase letters, digits and single hyphens (for example my-skill)"@,
            };
            let r2 = Report {
                rule: RULE_NAME_LENGTH@,
                severity: Severity::Error,
                line,
                message: over_limit(
                    "name"@,
                    decimal(name.len()),
                    "character"@,
                    decimal(MAX_NAME_CHARS as nat),
                ),
            };
            let r3 = Report {
                rule: RULE_NAME_DIR_MISMATCH@,
                severity: Severity::Warning,
                line,
                message: "name "@ + debug_quoted(name) + " does not match its directory "@
                    + debug_quoted(dir->0),
            };
            let a = report_if(!name_format(name), r1);
            let b = report_if(name.len() > MAX_NAME_CHARS, r2);
            let c = report_if(dir is Some && dir != Some(name), r3);
            let d = budget_reports(
                RULE_TOKENS_NAME@,
                line,
                "name"@,
                tokens,
                cfg.max_skill_name_tokens,
            );
            assert(reports == a + b + c + d);
            lemma_add_filter(a, b, rule);
            lemma_add_filter(a + b, c, rule);
            lemma_add_filter(a + b + c, d, rule);
            lemma_if_filter(!name_format(name), r1, rule);
            lemma_if_filter(name.len() > MAX_NAME_CHARS, r2, rule);
            lemma_if_filter(dir is Some && dir != Some(name), r3, rule);
            if rule == RULE_TOKENS_NAME@ {
                lemma_filter_all(d, says_rule(rule));
            } else {
                lemma_filter_none(d, says_rule(rule));
            }
        },
    }
}

/// What a description says of a rule.
proof fn lemma_description_rule(cfg: Config, fm: Frontmatter, tokens: usize, rule: Seq<char>)
    ensures
        description_reports(cfg, fm, tokens).filter(says_rule(rule)) == {
            let line = fm.line_of("description"@);
            match declared(fm, "description"@) {
                None => if rule == RULE_DESCRIPTION_REQUIRED@ {
                    description_reports(cfg, fm, tokens)
                } else {
                    Seq::empty()
                },
                Some(description) => if rule == RULE_DESCRIPTION_LENGTH@ && description.len()
                    > MAX_DESCRIPTION_CHARS {
                    seq![
                        Report {
                            rule,
                            severity: Severity::Error,
                            line,
                            message: over_limit(
                                "description"@,
                                humanized((description.len() as i64) as int),
                                "character"@,
                                humanized(MAX_DESCRIPTION_CHARS as int),
                            ),
                        },
                    ]
                } else if rule == RULE_TOKENS_DESCRIPTION@ {
                    budget_reports(
                        rule,
                        line,
                        "description"@,
                        tokens,
                        cfg.max_skill_description_tokens,
                    )
                } else {
                    Seq::empty()
                },
            }
        },
{
    law_rules_are_distinct();
    let line = fm.line_of("description"@);
    let reports = description_reports(cfg, fm, tokens);
    match declared(fm, "description"@) {
        None => {
            lemma_filter_one(reports[0], says_rule(rule));
            assert(reports =~= seq![reports[0]]);
        },
        Some(description) => {
            let r = Report {
                rule: RULE_DESCRIPTION_LENGTH@,
                severity: Severity::Error,
                line,
                message: over_limit(
                    "description"@,
                    humanized((description.len() as i64) as int),
                    "character"@,
                    humanized(MAX_DESCRIPTION_CHARS as int),
                ),
            };
            let a = report_if(description.len() > MAX_DESCRIPTION_CHARS, r);
            let b = budget_reports(
                RULE_TOKENS_DESCRIPTION@,
                line,
                "description"@,
                tokens,
                cfg.max_skill_description_tokens,
            );
            assert(reports == a + b);
            lemma_add_filter(a, b, rule);
            lemma_if_filter(description.len() > MAX_DESCRIPTION_CHARS, r, rule);
            if rule == RULE_TOKENS_DESCRIPTION@ {
                lemma_filter_all(b, says_rule(rule));
            } else {
                lemma_filter_none(b, says_rule(rule));
            }
        },
    }
}

/// A rule on something else hears nothing of a name.
proof fn lemma_name_silent(
    cfg: Config,
    dir: Option<Seq<char>>,
    fm: Frontmatter,
    tokens: usize,
    rule: Seq<char>,
)
    requires
        rule != RULE_NAME_REQUIRED@,
        rule != RULE_NAME_FORMAT@,
        rule != RULE_NAME_LENGTH@,
        rule != RULE_NAME_DIR_MISMATCH@,
        rule != RULE_TOKENS_NAME@,
    ensures
        name_reports(cfg, dir, fm, tokens).filter(says_rule(rule)) == Seq::<Report>::empty(),
{
    lemma_name_rule(cfg, dir, fm, tokens, rule);
}

/// A rule on something else hears nothing of a description.
proof fn lemma_description_silent(cfg: Config, fm: Frontmatter, tokens: usize, rule: Seq<char>)
    requires
        rule != RULE_DESCRIPTION_REQUIRED@,
        rule != RULE_DESCRIPTION_LENGTH@,
        rule != RULE_TOKENS_DESCRIPTION@,
    ensures
        description_reports(cfg, fm, tokens).filter(says_rule(rule)) == Seq::<Report>::empty(),
{
    lemma_description_rule(cfg, fm, tokens, rule);
}

/// A rule on something else hears nothing of a skill's front matter that was
/// read.
proof fn lemma_front_silent(
    cfg: Config,
    cwd: Seq<Step>,
    t: Target,
    doc: Document,
    tokens: Counts,
    rule: Seq<char>,
)
    requires
        t.kind == Kind::Skill,
        doc.err is None,
        doc.fm.present,
        rank(rule) < 4 || rank(rule) == 13 || rank(rule) == 16,
    ensures
        front_reports(cfg, cwd, t, doc, tokens).filter(says_rule(rule)) == Seq::<Report>::empty(),
{
    law_rules_are_distinct();
    lemma_front_rule(cfg, cwd, t, doc, tokens, rule);
    lemma_name_silent(cfg, directory_name(cwd, t.path@), doc.fm, tokens.name, rule);
    lemma_description_silent(cfg, doc.fm, tokens.description, rule);
    assert(front_reports(cfg, cwd, t, doc, tokens).filter(says_rule(rule)) =~= Seq::empty());
}

/// The findings of one rule in a file, in order.
pub open spec fn found(
    cfg: Config,
    cwd: Seq<Step>,
    t: Target,
    doc: Document,
    tokens: Counts,
    existing: Seq<Seq<Step>>,
    rule: Seq<char>,
) -> Seq<FindingView> {
    file_findings(cfg, cwd, t, doc, tokens, existing).filter(of_rule(rule))
}

/// The one finding, where the condition holds.
pub open spec fn just(condition: bool, f: FindingView) -> Seq<FindingView> {
    if condition {
        seq![f]
    } else {
        seq![]
    }
}

/// What is found of front matter that is not there or cannot be read: one error,
/// where the reading failed and in the words of the failure. An `AGENTS.md` is
/// only told of front matter that never ends.
pub proof fn law_unread_front_matter_findings(
    cfg: Config,
    cwd: Seq<Step>,
    t: Target,
    doc: Document,
    tokens: Counts,
    existing: Seq<Seq<Step>>,
)
    ensures
        found(cfg, cwd, t, doc, tokens, existing, "frontmatter.missing"@) == just(
            t.kind == Kind::Skill && doc.err is None && !doc.fm.present && !off(
                cfg,
                "frontmatter.missing"@,
            ),
            FindingView {
                file: t.path@,
                line: 1,
                rule: "frontmatter.missing"@,
                severity: Severity::Error,
                message: "missing YAML front matter: a skill must open with a --- fenced block declaring name and description"@,
            },
        ),
        found(cfg, cwd, t, doc, tokens, existing, "frontmatter.not-first"@) == just(
            t.kind == Kind::Skill && doc.err is Some && doc.err->0.kind == ErrKind::NotFirst && !off(
                cfg,
                "frontmatter.not-first"@,
            ),
            FindingView {
                file: t.path@,
                line: doc.err->0.line as nat,
                rule: "frontmatter.not-first"@,
                severity: Severity::Error,
                message: doc.err->0.msg@,
            },
        ),
        found(cfg, cwd, t, doc, tokens, existing, "frontmatter.unterminated"@) == just(
            doc.err is Some && doc.err->0.kind == ErrKind::Unterminated && !off(
                cfg,
                "frontmatter.unterminated"@,
            ),
            FindingView {
                file: t.path@,
                line: doc.err->0.line as nat,
                rule: "frontmatter.unterminated"@,
                severity: Severity::Error,
                message: doc.err->0.msg@,
            },
        ),
        found(cfg, cwd, t, doc, tokens, existing, "frontmatter.invalid"@) == just(
            t.kind == Kind::Skill && doc.err is Some && doc.err->0.kind == ErrKind::Invalid && !off(
                cfg,
                "frontmatter.invalid"@,
            ),
            FindingView {
                file: t.path@,
                line: doc.err->0.line as nat,
                rule: "frontmatter.invalid"@,
                severity: Severity::Error,
                message: doc.err->0.msg@,
            },
        ),
{
    law_rules_are_distinct();
    lemma_unread_rule(cfg, cwd, t, doc, tokens, existing, "frontmatter.missing"@);
    lemma_unread_rule(cfg, cwd, t, doc, tokens, existing, "frontmatter.not-first"@);
    lemma_unread_rule(cfg, cwd, t, doc, tokens, existing, "frontmatter.unterminated"@);
    lemma_unread_rule(cfg, cwd, t, doc, tokens, existing, "frontmatter.invalid"@);
}

proof fn lemma_unread_rule(
    cfg: Config,
    cwd: Seq<Step>,
    t: Target,
    doc: Document,
    tokens: Counts,
    existing: Seq<Seq<Step>>,
    rule: Seq<char>,
)
    requires
        rule == RULE_FRONTMATTER_MISSING@ || rule == RULE_FRONTMATTER_NOT_FIRST@ || rule
            == RULE_FRONTMATTER_UNTERMINATED@ || rule == RULE_FRONTMATTER_INVALID@,
    ensures
        found(cfg, cwd, t, doc, tokens, existing, rule) == {
            let front = front_reports(cfg, cwd, t, doc, tokens);
            just(
                !skill_read(t, doc) && front.len() == 1 && front[0].rule == rule && !off(
                    cfg,
                    rule,
                ),
                finding_in(cfg, t.path@)(front[0]),
            )
        },
{
    let front = front_reports(cfg, cwd, t, doc, tokens);
    let said = front.filter(says_rule(rule));
    let none = Seq::<Report>::empty();
    let condition = !skill_read(t, doc) && front.len() == 1 && front[0].rule == rule;
    assert(rank(rule) < 4 && rule != RULE_FILE_REFERENCE_MISSING@ && rule != RULE_TOKENS_CONTENT@) by {
        law_rules_are_distinct();
    }
    assert(said == if condition {
        seq![front[0]]
    } else {
        none
    }) by {
        if skill_read(t, doc) {
            lemma_front_silent(cfg, cwd, t, doc, tokens, rule);
        } else {
            lemma_unread_said(cfg, cwd, t, doc, tokens, rule);
        }
    }
    lemma_file_rule(cfg, cwd, t, doc, tokens, existing, rule);
    assert(said + none + none =~= said);
    lemma_made(
        cfg,
        t.path@,
        found(cfg, cwd, t, doc, tokens, existing, rule),
        !off(cfg, rule),
        said,
        condition,
        front[0],
    );
}

/// Front matter that was not read says one thing at most.
proof fn lemma_unread_said(
    cfg: Config,
    cwd: Seq<Step>,
    t: Target,
    doc: Document,
    tokens: Counts,
    rule: Seq<char>,
)
    requires
        !skill_read(t, doc),
    ensures
        ({
            let front = front_reports(cfg, cwd, t, doc, tokens);
            front.filter(says_rule(rule)) == if front.len() == 1 && front[0].rule == rule {
                seq![front[0]]
            } else {
                Seq::empty()
            }
        }),
{
    let front = front_reports(cfg, cwd, t, doc, tokens);
    if front.len() == 1 {
        assert(front =~= seq![front[0]]);
        lemma_filter_one(front[0], says_rule(rule));
    } else {
        lemma_filter_none(front, says_rule(rule));
    }
}

/// Which keys front matter may have: these eight, and no other.
pub proof fn law_known_keys(key: Seq<char>)
    ensures
        known_key(key) <==> {
            ||| key == "name"@
            ||| key == "description"@
            ||| key == "license"@
            ||| key == "compatibility"@
            ||| key == "metadata"@
            ||| key == "allowed-tools"@
            ||| key == "disable-model-invocation"@
            ||| key == "argument-hint"@
        },
{
    assert(KNOWN_KEYS[0]@ == "name"@);
    assert(KNOWN_KEYS[1]@ == "description"@);
    assert(KNOWN_KEYS[2]@ == "license"@);
    assert(KNOWN_KEYS[3]@ == "compatibility"@);
    assert(KNOWN_KEYS[4]@ == "metadata"@);
    assert(KNOWN_KEYS[5]@ == "allowed-tools"@);
    assert(KNOWN_KEYS[6]@ == "disable-model-invocation"@);
    assert(KNOWN_KEYS[7]@ == "argument-hint"@);
    if known_key(key) {
        let i = choose|i: int| 0 <= i < 8 && (#[trigger] KNOWN_KEYS[i])@ == key;
        assert(i == 0 || i == 1 || i == 2 || i == 3 || i == 4 || i == 5 || i == 6 || i == 7);
    }
}

/// Whether a field's key is none of those that front matter may have.
pub open spec fn stray() -> spec_fn(Field) -> bool {
    |field: Field|
        {
            let key = field.key@;
            &&& key != "name"@
            &&& key != "description"@
            &&& key != "license"@
            &&& key != "compatibility"@
            &&& key != "metadata"@
            &&& key != "allowed-tools"@
            &&& key != "disable-model-invocation"@
            &&& key != "argument-hint"@
        }
}

/// What is found of a key that front matter may not have.
pub open spec fn stray_finding(cfg: Config, t: Target, fm: Frontmatter) -> spec_fn(
    Field,
) -> FindingView {
    |field: Field|
        FindingView {
            file: t.path@,
            line: fm.line_of(field.key@),
            rule: "frontmatter.unknown-key"@,
            severity: if cfg.strict {
                Severity::Error
            } else {
                Severity::Warning
            },
            message: "unknown front-matter key "@ + debug_quoted(field.key@),
        }
}

proof fn lemma_keys_found(cfg: Config, t: Target, fm: Frontmatter, n: nat)
    requires
        n <= fm.fields@.len(),
    ensures
        keys_reports(fm, n).map_values(finding_in(cfg, t.path@)) == fm.fields@.take(n as int).filter(
            stray(),
        ).map_values(stray_finding(cfg, t, fm)),
    decreases n,
{
    let make = finding_in(cfg, t.path@);
    let fields = fm.fields@.take(n as int);
    if n == 0 {
        lemma_filter_none(fields, stray());
        assert(keys_reports(fm, n).map_values(make) =~= fields.filter(stray()).map_values(
            stray_finding(cfg, t, fm),
        ));
    } else {
        let m = (n - 1) as nat;
        let front = fm.fields@.take(m as int);
        let last = fm.fields@[m as int];
        lemma_keys_found(cfg, t, fm, m);
        law_known_keys(last.key@);
        assert(fields =~= front + seq![last]);
        Seq::filter_distributes_over_add(front, seq![last], stray());
        lemma_filter_one(last, stray());
        let some = front.filter(stray());
        let before = keys_reports(fm, m);
        let said = key_reports(fm, last.key@);
        assert(stray()(last) <==> !known_key(last.key@));
        assert(keys_reports(fm, n) == before + said);
        assert((before + said).map_values(make) =~= before.map_values(make) + said.map_values(make));
        if stray()(last) {
            assert(said.map_values(make) =~= seq![stray_finding(cfg, t, fm)(last)]);
            assert(fields.filter(stray()) == some + seq![last]);
            assert((some + seq![last]).map_values(stray_finding(cfg, t, fm)) =~= some.map_values(
                stray_finding(cfg, t, fm),
            ) + seq![stray_finding(cfg, t, fm)(last)]);
        } else {
            assert(said.map_values(make) =~= Seq::empty());
            assert(fields.filter(stray()) =~= some);
        }
        assert(keys_reports(fm, n).map_values(make) =~= fields.filter(stray()).map_values(
            stray_finding(cfg, t, fm),
        ));
    }
}

/// What is found of the keys of a skill's front matter: a warning for each that
/// it may not have, in the order of the keys and on the key's line. A strict
/// run makes it an error.
pub proof fn law_key_findings(
    cfg: Config,
    cwd: Seq<Step>,
    t: Target,
    doc: Document,
    tokens: Counts,
    existing: Seq<Seq<Step>>,
)
    ensures
        found(cfg, cwd, t, doc, tokens, existing, "frontmatter.unknown-key"@) == if
            skill_read(t, doc) && !off(cfg, "frontmatter.unknown-key"@) {
            doc.fm.fields@.filter(stray()).map_values(stray_finding(cfg, t, doc.fm))
        } else {
            seq![]
        },
{
    let rule = "frontmatter.unknown-key"@;
    let fm = doc.fm;
    assert(rank(rule) == 4 && rule != RULE_FILE_REFERENCE_MISSING@ && rule != RULE_TOKENS_CONTENT@)
        by {
        law_rules_are_distinct();
    }
    lemma_file_rule(cfg, cwd, t, doc, tokens, existing, rule);
    let front = front_reports(cfg, cwd, t, doc, tokens).filter(says_rule(rule));
    let none = Seq::<Report>::empty();
    assert(front + none + none =~= front);
    if skill_read(t, doc) {
        lemma_front_keys(cfg, cwd, t, doc, tokens);
        lemma_keys_found(cfg, t, fm, fm.fields@.len());
        assert(fm.fields@.take(fm.fields@.len() as int) =~= fm.fields@);
    } else {
        lemma_unread_silent(cfg, cwd, t, doc, tokens, rule);
        assert(front.map_values(finding_in(cfg, t.path@)) =~= Seq::empty());
    }
}

/// What a skill's front matter says of its keys.
proof fn lemma_front_keys(cfg: Config, cwd: Seq<Step>, t: Target, doc: Document, tokens: Counts)
    requires
        skill_read(t, doc),
    ensures
        front_reports(cfg, cwd, t, doc, tokens).filter(says_rule(RULE_FRONTMATTER_UNKNOWN_KEY@))
            == keys_reports(doc.fm, doc.fm.fields@.len()),
{
    let rule = RULE_FRONTMATTER_UNKNOWN_KEY@;
    law_rules_are_distinct();
    lemma_front_rule(cfg, cwd, t, doc, tokens, rule);
    lemma_name_silent(cfg, directory_name(cwd, t.path@), doc.fm, tokens.name, rule);
    lemma_description_silent(cfg, doc.fm, tokens.description, rule);
    let keys = keys_reports(doc.fm, doc.fm.fields@.len());
    let none = Seq::<Report>::empty();
    assert(keys + none + none + none + none =~= keys);
}

/// Front matter that was not read says nothing of what it would hold.
proof fn lemma_unread_silent(
    cfg: Config,
    cwd: Seq<Step>,
    t: Target,
    doc: Document,
    tokens: Counts,
    rule: Seq<char>,
)
    requires
        !skill_read(t, doc),
        rank(rule) >= 4,
    ensures
        front_reports(cfg, cwd, t, doc, tokens).filter(says_rule(rule)) == Seq::<Report>::empty(),
{
    law_rules_are_distinct();
    lemma_filter_none(front_reports(cfg, cwd, t, doc, tokens), says_rule(rule));
}

/// What a skill's front matter says of a rule on its parts, found in the file.
proof fn lemma_parts_rule(
    cfg: Config,
    cwd: Seq<Step>,
    t: Target,
    doc: Document,
    tokens: Counts,
    existing: Seq<Seq<Step>>,
    rule: Seq<char>,
)
    requires
        rank(rule) < 16,
        rank(rule) > 4,
        rank(rule) != 13,
    ensures
        found(cfg, cwd, t, doc, tokens, existing, rule) == if skill_read(t, doc) && !off(
            cfg,
            rule,
        ) {
            (name_reports(cfg, directory_name(cwd, t.path@), doc.fm, tokens.name).filter(
                says_rule(rule),
            ) + description_reports(cfg, doc.fm, tokens.description).filter(says_rule(rule)) + (if
                rule == RULE_ALLOWED_TOOLS_TYPE@ {
                allowed_tools_reports(doc.fm)
            } else {
                Seq::empty()
            }) + (if rule == RULE_METADATA_TYPE@ {
                metadata_reports(doc.fm)
            } else {
                Seq::empty()
            })).map_values(finding_in(cfg, t.path@))
        } else {
            Seq::empty()
        },
{
    law_rules_are_distinct();
    lemma_file_rule(cfg, cwd, t, doc, tokens, existing, rule);
    let front = front_reports(cfg, cwd, t, doc, tokens).filter(says_rule(rule));
    if skill_read(t, doc) {
        lemma_front_rule(cfg, cwd, t, doc, tokens, rule);
        let name = name_reports(
            cfg,
            directory_name(cwd, t.path@),
            doc.fm,
            tokens.name,
        ).filter(says_rule(rule));
        let description = description_reports(cfg, doc.fm, tokens.description).filter(
            says_rule(rule),
        );
        let tools = if rule == RULE_ALLOWED_TOOLS_TYPE@ {
            allowed_tools_reports(doc.fm)
        } else {
            Seq::empty()
        };
        let metadata = if rule == RULE_METADATA_TYPE@ {
            metadata_reports(doc.fm)
        } else {
            Seq::empty()
        };
        assert(front =~= name + description + tools + metadata);
        assert(found(cfg, cwd, t, doc, tokens, existing, rule) =~= if off(cfg, rule) {
            Seq::empty()
        } else {
            (name + description + tools + metadata).map_values(finding_in(cfg, t.path@))
        });
    } else {
        lemma_filter_none(front_reports(cfg, cwd, t, doc, tokens), says_rule(rule));
        assert(found(cfg, cwd, t, doc, tokens, existing, rule) =~= Seq::empty());
    }
}

/// What is found of a skill's name: that it is missing, badly formed, over 64
/// characters long, or not that of its directory. The last is a warning, unless
/// the run is strict. All stand on the name's line.
pub proof fn law_name_findings(
    cfg: Config,
    cwd: Seq<Step>,
    t: Target,
    doc: Document,
    tokens: Counts,
    existing: Seq<Seq<Step>>,
)
    ensures
        ({
            let read = skill_read(t, doc);
            let name = declared(doc.fm, "name"@);
            let dir = directory_name(cwd, t.path@);
            let line = doc.fm.line_of("name"@);
            &&& found(cfg, cwd, t, doc, tokens, existing, "name.required"@) == just(
                read && name is None && !off(cfg, "name.required"@),
                FindingView {
                    file: t.path@,
                    line,
                    rule: "name.required"@,
                    severity: Severity::Error,
                    message: "front matter must declare a non-empty string name"@,
                },
            )
            &&& found(cfg, cwd, t, doc, tokens, existing, "name.format"@) == just(
                read && name is Some && !name_format(name->0) && !off(cfg, "name.format"@),
                FindingView {
                    file: t.path@,
                    line,
                    rule: "name.format"@,
                    severity: Severity::Error,
                    message: "name "@ + debug_quoted(name->0)
                        + " must be lowercase letters, digits and single hyphens (for example my-skill)"@,
                },
            )
            &&& found(cfg, cwd, t, doc, tokens, existing, "name.length"@) == just(
                read && name is Some && name->0.len() > 64 && !off(cfg, "name.length"@),
                FindingView {
                    file: t.path@,
                    line,
                    rule: "name.length"@,
                    severity: Severity::Error,
                    message: "name is "@ + decimal(name->0.len())
                        + " characters, over the 64 character limit"@,
                },
            )
            &&& found(cfg, cwd, t, doc, tokens, existing, "name.dir-mismatch"@) == just(
                read && name is Some && dir is Some && dir->0 != name->0 && !off(
                    cfg,
                    "name.dir-mismatch"@,
                ),
                FindingView {
                    file: t.path@,
                    line,
                    rule: "name.dir-mismatch"@,
                    severity: if cfg.strict {
                        Severity::Error
                    } else {
                        Severity::Warning
                    },
                    message: "name "@ + debug_quoted(name->0) + " does not match its directory "@
                        + debug_quoted(dir->0),
                },
            )
        }),
{
    lemma_name_required_found(cfg, cwd, t, doc, tokens, existing);
    lemma_name_format_found(cfg, cwd, t, doc, tokens, existing);
    lemma_name_length_found(cfg, cwd, t, doc, tokens, existing);
    lemma_name_dir_found(cfg, cwd, t, doc, tokens, existing);
}

/// What one report makes of a rule's findings.
proof fn lemma_made(
    cfg: Config,
    path: Seq<char>,
    out: Seq<FindingView>,
    live: bool,
    said: Seq<Report>,
    condition: bool,
    report: Report,
)
    requires
        out == if live {
            said.map_values(finding_in(cfg, path))
        } else {
            Seq::empty()
        },
        said == if condition {
            seq![report]
        } else {
            Seq::empty()
        },
    ensures
        out == just(live && condition, finding_in(cfg, path)(report)),
{
    assert(out =~= just(live && condition, finding_in(cfg, path)(report)));
}

proof fn lemma_name_required_found(
    cfg: Config,
    cwd: Seq<Step>,
    t: Target,
    doc: Document,
    tokens: Counts,
    existing: Seq<Seq<Step>>,
)
    ensures
        ({
            let name = declared(doc.fm, "name"@);
            let dir = directory_name(cwd, t.path@);
            found(cfg, cwd, t, doc, tokens, existing, RULE_NAME_REQUIRED@) == just(
                skill_read(t, doc) && name is None && !off(cfg, RULE_NAME_REQUIRED@),
                FindingView {
                    file: t.path@,
                    line: doc.fm.line_of("name"@),
                    rule: RULE_NAME_REQUIRED@,
                    severity: Severity::Error,
                    message: "front matter must declare a non-empty string name"@,
                },
            )
        }),
{
    let rule = RULE_NAME_REQUIRED@;
    let dir = directory_name(cwd, t.path@);
    let name = declared(doc.fm, "name"@);
    let said = name_reports(cfg, dir, doc.fm, tokens.name).filter(says_rule(rule));
    let condition = name is None;
    let report = Report {
        rule,
        severity: Severity::Error,
        line: doc.fm.line_of("name"@),
        message: "front matter must declare a non-empty string name"@,
    };
    assert(rank(rule) == 5 && rule != RULE_NAME_FORMAT@ && rule != RULE_NAME_LENGTH@
        && rule != RULE_NAME_DIR_MISMATCH@ && rule != RULE_TOKENS_NAME@) by {
        law_rules_are_distinct();
    }
    lemma_name_found(cfg, cwd, t, doc, tokens, existing, rule);
    assert(said == if condition {
        seq![report]
    } else {
        Seq::empty()
    }) by {
        lemma_name_rule(cfg, dir, doc.fm, tokens.name, rule);
    }
    lemma_made(
        cfg,
        t.path@,
        found(cfg, cwd, t, doc, tokens, existing, rule),
        skill_read(t, doc) && !off(cfg, rule),
        said,
        condition,
        report,
    );
}

proof fn lemma_name_format_found(
    cfg: Config,
    cwd: Seq<Step>,
    t: Target,
    doc: Document,
    tokens: Counts,
    existing: Seq<Seq<Step>>,
)
    ensures
        ({
            let name = declared(doc.fm, "name"@);
            let dir = directory_name(cwd, t.path@);
            found(cfg, cwd, t, doc, tokens, existing, RULE_NAME_FORMAT@) == just(
                skill_read(t, doc) && name is Some && !name_format(name->0) && !off(
                    cfg,
                    RULE_NAME_FORMAT@,
                ),
                FindingView {
                    file: t.path@,
                    line: doc.fm.line_of("name"@),
                    rule: RULE_NAME_FORMAT@,
                    severity: Severity::Error,
                    message: "name "@ + debug_quoted(name->0)
                        + " must be lowercase letters, digits and single hyphens (for example my-skill)"@,
                },
            )
        }),
{
    let rule = RULE_NAME_FORMAT@;
    let dir = directory_name(cwd, t.path@);
    let name = declared(doc.fm, "name"@);
    let said = name_reports(cfg, dir, doc.fm, tokens.name).filter(says_rule(rule));
    let condition = name is Some && !name_format(name->0);
    let report = Report {
        rule,
        severity: Severity::Error,
        line: doc.fm.line_of("name"@),
        message: "name "@ + debug_quoted(name->0)
            + " must be lowercase letters, digits and single hyphens (for example my-skill)"@,
    };
    assert(rank(rule) == 6 && rule != RULE_NAME_REQUIRED@ && rule != RULE_NAME_LENGTH@
        && rule != RULE_NAME_DIR_MISMATCH@ && rule != RULE_TOKENS_NAME@) by {
        law_rules_are_distinct();
    }
    lemma_name_found(cfg, cwd, t, doc, tokens, existing, rule);
    assert(said == if condition {
        seq![report]
    } else {
        Seq::empty()
    }) by {
        lemma_name_rule(cfg, dir, doc.fm, tokens.name, rule);
    }
    lemma_made(
        cfg,
        t.path@,
        found(cfg, cwd, t, doc, tokens, existing, rule),
        skill_read(t, doc) && !off(cfg, rule),
        said,
        condition,
        report,
    );
}

proof fn lemma_name_length_found(
    cfg: Config,
    cwd: Seq<Step>,
    t: Target,
    doc: Document,
    tokens: Counts,
    existing: Seq<Seq<Step>>,
)
    ensures
        ({
            let name = declared(doc.fm, "name"@);
            let dir = directory_name(cwd, t.path@);
            found(cfg, cwd, t, doc, tokens, existing, RULE_NAME_LENGTH@) == just(
                skill_read(t, doc) && name is Some && name->0.len() > 64 && !off(
                    cfg,
                    RULE_NAME_LENGTH@,
                ),
                FindingView {
                    file: t.path@,
                    line: doc.fm.line_of("name"@),
                    rule: RULE_NAME_LENGTH@,
                    severity: Severity::Error,
                    message: "name is "@ + decimal(name->0.len())
                        + " characters, over the 64 character limit"@,
                },
            )
        }),
{
    let rule = RULE_NAME_LENGTH@;
    let dir = directory_name(cwd, t.path@);
    let name = declared(doc.fm, "name"@);
    let said = name_reports(cfg, dir, doc.fm, tokens.name).filter(says_rule(rule));
    let condition = name is Some && name->0.len() > 64;
    let report = Report {
        rule,
        severity: Severity::Error,
        line: doc.fm.line_of("name"@),
        message: "name is "@ + decimal(name->0.len())
            + " characters, over the 64 character limit"@,
    };
    assert(rank(rule) == 7 && rule != RULE_NAME_REQUIRED@ && rule != RULE_NAME_FORMAT@
        && rule != RULE_NAME_DIR_MISMATCH@ && rule != RULE_TOKENS_NAME@) by {
        law_rules_are_distinct();
    }
    lemma_name_found(cfg, cwd, t, doc, tokens, existing, rule);
    assert(said == if condition {
        seq![report]
    } else {
        Seq::empty()
    }) by {
        lemma_name_rule(cfg, dir, doc.fm, tokens.name, rule);
        if condition {
            lemma_name_limit(decimal(name->0.len()));
        }
    }
    lemma_made(
        cfg,
        t.path@,
        found(cfg, cwd, t, doc, tokens, existing, rule),
        skill_read(t, doc) && !off(cfg, rule),
        said,
        condition,
        report,
    );
}

proof fn lemma_name_dir_found(
    cfg: Config,
    cwd: Seq<Step>,
    t: Target,
    doc: Document,
    tokens: Counts,
    existing: Seq<Seq<Step>>,
)
    ensures
        ({
            let name = declared(doc.fm, "name"@);
            let dir = directory_name(cwd, t.path@);
            found(cfg, cwd, t, doc, tokens, existing, RULE_NAME_DIR_MISMATCH@) == just(
                skill_read(t, doc) && name is Some && dir is Some && dir->0 != name->0 && !off(
                    cfg,
                    RULE_NAME_DIR_MISMATCH@,
                ),
                FindingView {
                    file: t.path@,
                    line: doc.fm.line_of("name"@),
                    rule: RULE_NAME_DIR_MISMATCH@,
                    severity: if cfg.strict {
                        Severity::Error
                    } else {
                        Severity::Warning
                    },
                    message: "name "@ + debug_quoted(name->0) + " does not match its directory "@
                        + debug_quoted(dir->0),
                },
            )
        }),
{
    let rule = RULE_NAME_DIR_MISMATCH@;
    let dir = directory_name(cwd, t.path@);
    let name = declared(doc.fm, "name"@);
    let said = name_reports(cfg, dir, doc.fm, tokens.name).filter(says_rule(rule));
    let condition = name is Some && dir is Some && dir->0 != name->0;
    let report = Report {
        rule,
        severity: Severity::Warning,
        line: doc.fm.line_of("name"@),
        message: "name "@ + debug_quoted(name->0) + " does not match its directory "@
            + debug_quoted(dir->0),
    };
    assert(rank(rule) == 8 && rule != RULE_NAME_REQUIRED@ && rule != RULE_NAME_FORMAT@
        && rule != RULE_NAME_LENGTH@ && rule != RULE_TOKENS_NAME@) by {
        law_rules_are_distinct();
    }
    lemma_name_found(cfg, cwd, t, doc, tokens, existing, rule);
    assert(said == if condition {
        seq![report]
    } else {
        Seq::empty()
    }) by {
        lemma_name_rule(cfg, dir, doc.fm, tokens.name, rule);
    }
    lemma_made(
        cfg,
        t.path@,
        found(cfg, cwd, t, doc, tokens, existing, rule),
        skill_read(t, doc) && !off(cfg, rule),
        said,
        condition,
        report,
    );
}

proof fn lemma_name_found(
    cfg: Config,
    cwd: Seq<Step>,
    t: Target,
    doc: Document,
    tokens: Counts,
    existing: Seq<Seq<Step>>,
    rule: Seq<char>,
)
    requires
        5 <= rank(rule) <= 8 || rank(rule) == 14,
    ensures
        ({
            let said = name_reports(
                cfg,
                directory_name(cwd, t.path@),
                doc.fm,
                tokens.name,
            ).filter(says_rule(rule));
            found(cfg, cwd, t, doc, tokens, existing, rule) == if skill_read(t, doc) && !off(
                cfg,
                rule,
            ) {
                said.map_values(finding_in(cfg, t.path@))
            } else {
                Seq::empty()
            }
        }),
{
    lemma_parts_rule(cfg, cwd, t, doc, tokens, existing, rule);
    let said = name_reports(
        cfg,
        directory_name(cwd, t.path@),
        doc.fm,
        tokens.name,
    ).filter(says_rule(rule));
    assert(rule != RULE_DESCRIPTION_REQUIRED@ && rule != RULE_DESCRIPTION_LENGTH@ && rule
        != RULE_TOKENS_DESCRIPTION@ && rule != RULE_ALLOWED_TOOLS_TYPE@ && rule
        != RULE_METADATA_TYPE@) by {
        law_rules_are_distinct();
    }
    lemma_description_silent(cfg, doc.fm, tokens.description, rule);
    let none = Seq::<Report>::empty();
    assert(said + none + none + none =~= said);
}

/// How the limit on a name's length reads.
proof fn lemma_name_limit(count: Seq<char>)
    ensures
        over_limit("name"@, count, "character"@, decimal(MAX_NAME_CHARS as nat)) == "name is "@
            + count + " characters, over the 64 character limit"@,
{
    reveal_strlit("name");
    reveal_strlit(" is ");
    reveal_strlit("name is ");
    reveal_strlit(" ");
    reveal_strlit("character");
    reveal_strlit("s, over the ");
    reveal_strlit(" limit");
    reveal_strlit(" characters, over the 64 character limit");
    assert(decimal(6) =~= seq!['6']);
    assert(decimal(64) =~= seq!['6', '4']);
    assert("name"@ + " is "@ =~= "name is "@);
    assert(" "@ + "character"@ + "s, over the "@ + decimal(64) + " "@ + "character"@ + " limit"@
        =~= " characters, over the 64 character limit"@);
    assert(over_limit("name"@, count, "character"@, decimal(64)) =~= ("name"@ + " is "@) + count + (
    " "@ + "character"@ + "s, over the "@ + decimal(64) + " "@ + "character"@ + " limit"@));
}

/// A count that is too big for the machine's signed numbers reads as negative.
proof fn lemma_big_count(count: usize)
    ensures
        count > i64::MAX ==> (count as i64) < 0,
{
    assert(count > 0x7fff_ffff_ffff_ffff ==> (count as i64) < 0i64) by (bit_vector);
}

/// What a budget rule says: something exactly where the budget is above zero
/// and the count above the budget.
proof fn lemma_budget_said(rule: Seq<char>, line: nat, part: Seq<char>, count: usize, budget: i64)
    ensures
        budget_reports(rule, line, part, count, budget) == if 0 < budget < count <= i64::MAX {
            seq![
                Report {
                    rule,
                    severity: Severity::Error,
                    line,
                    message: part + " is "@ + humanized(count as int) + " tokens, over the "@
                        + humanized(budget as int) + " token limit"@,
                },
            ]
        } else {
            Seq::empty()
        },
{
    lemma_big_count(count);
    let (c, b) = (humanized(count as int), humanized(budget as int));
    reveal_strlit(" ");
    reveal_strlit("token");
    reveal_strlit("s, over the ");
    reveal_strlit(" limit");
    reveal_strlit(" tokens, over the ");
    reveal_strlit(" token limit");
    assert(" "@ + "token"@ + "s, over the "@ =~= " tokens, over the "@);
    assert(" "@ + "token"@ + " limit"@ =~= " token limit"@);
    assert(over_limit(part, c, "token"@, b) =~= part + " is "@ + c + (" "@ + "token"@
        + "s, over the "@) + b + (" "@ + "token"@ + " limit"@));
}

/// What is found of token counts. Each of the three is reported exactly where
/// its budget is above zero and the count above its budget: the body of the file
/// against the budget of its kind, and a skill's name and description, where it
/// declares them, against theirs.
pub proof fn law_budget_findings(
    cfg: Config,
    cwd: Seq<Step>,
    t: Target,
    doc: Document,
    tokens: Counts,
    existing: Seq<Seq<Step>>,
)
    ensures
        ({
            let limit = if t.kind == Kind::Agents {
                cfg.max_agents_tokens
            } else {
                cfg.max_skill_tokens
            };
            found(cfg, cwd, t, doc, tokens, existing, "tokens.content"@) == just(
                0 < limit < tokens.content <= i64::MAX && !off(cfg, "tokens.content"@),
                FindingView {
                    file: t.path@,
                    line: 0,
                    rule: "tokens.content"@,
                    severity: Severity::Error,
                    message: "content is "@ + humanized(tokens.content as int)
                        + " tokens, over the "@ + humanized(limit as int) + " token limit"@,
                },
            )
        }),
        found(cfg, cwd, t, doc, tokens, existing, "tokens.name"@) == just(
            skill_read(t, doc) && declared(doc.fm, "name"@) is Some && 0
                < cfg.max_skill_name_tokens < tokens.name <= i64::MAX && !off(cfg, "tokens.name"@),
            FindingView {
                file: t.path@,
                line: doc.fm.line_of("name"@),
                rule: "tokens.name"@,
                severity: Severity::Error,
                message: "name is "@ + humanized(tokens.name as int) + " tokens, over the "@
                    + humanized(cfg.max_skill_name_tokens as int) + " token limit"@,
            },
        ),
        found(cfg, cwd, t, doc, tokens, existing, "tokens.description"@) == just(
            skill_read(t, doc) && declared(doc.fm, "description"@) is Some && 0
                < cfg.max_skill_description_tokens < tokens.description <= i64::MAX && !off(
                cfg,
                "tokens.description"@,
            ),
            FindingView {
                file: t.path@,
                line: doc.fm.line_of("description"@),
                rule: "tokens.description"@,
                severity: Severity::Error,
                message: "description is "@ + humanized(tokens.description as int)
                    + " tokens, over the "@ + humanized(cfg.max_skill_description_tokens as int)
                    + " token limit"@,
            },
        ),
{
    lemma_content_found(cfg, cwd, t, doc, tokens, existing);
    lemma_name_tokens_found(cfg, cwd, t, doc, tokens, existing);
    lemma_description_tokens_found(cfg, cwd, t, doc, tokens, existing);
    reveal_strlit(" is ");
    reveal_strlit("content");
    reveal_strlit("content is ");
    reveal_strlit("name");
    reveal_strlit("name is ");
    reveal_strlit("description");
    reveal_strlit("description is ");
    assert("content"@ + " is "@ =~= "content is "@);
    assert("name"@ + " is "@ =~= "name is "@);
    assert("description"@ + " is "@ =~= "description is "@);
}

proof fn lemma_content_found(
    cfg: Config,
    cwd: Seq<Step>,
    t: Target,
    doc: Document,
    tokens: Counts,
    existing: Seq<Seq<Step>>,
)
    ensures
        ({
            let limit = cfg.body_budget(t.kind);
            found(cfg, cwd, t, doc, tokens, existing, RULE_TOKENS_CONTENT@) == just(
                0 < limit < tokens.content <= i64::MAX && !off(cfg, RULE_TOKENS_CONTENT@),
                FindingView {
                    file: t.path@,
                    line: 0,
                    rule: RULE_TOKENS_CONTENT@,
                    severity: Severity::Error,
                    message: "content"@ + " is "@ + humanized(tokens.content as int)
                        + " tokens, over the "@ + humanized(limit as int) + " token limit"@,
                },
            )
        }),
{
    let rule = RULE_TOKENS_CONTENT@;
    assert(rank(rule) == 13 && rule != RULE_FILE_REFERENCE_MISSING@) by {
        law_rules_are_distinct();
    }
    lemma_file_rule(cfg, cwd, t, doc, tokens, existing, rule);
    if skill_read(t, doc) {
        lemma_front_silent(cfg, cwd, t, doc, tokens, rule);
    } else {
        lemma_unread_silent(cfg, cwd, t, doc, tokens, rule);
    }
    lemma_budget_said(rule, 0, "content"@, tokens.content, cfg.body_budget(t.kind));
}

proof fn lemma_name_tokens_found(
    cfg: Config,
    cwd: Seq<Step>,
    t: Target,
    doc: Document,
    tokens: Counts,
    existing: Seq<Seq<Step>>,
)
    ensures
        found(cfg, cwd, t, doc, tokens, existing, RULE_TOKENS_NAME@) == just(
            skill_read(t, doc) && declared(doc.fm, "name"@) is Some && 0
                < cfg.max_skill_name_tokens < tokens.name <= i64::MAX && !off(
                cfg,
                RULE_TOKENS_NAME@,
            ),
            FindingView {
                file: t.path@,
                line: doc.fm.line_of("name"@),
                rule: RULE_TOKENS_NAME@,
                severity: Severity::Error,
                message: "name"@ + " is "@ + humanized(tokens.name as int) + " tokens, over the "@
                    + humanized(cfg.max_skill_name_tokens as int) + " token limit"@,
            },
        ),
{
    let rule = RULE_TOKENS_NAME@;
    let dir = directory_name(cwd, t.path@);
    let name = declared(doc.fm, "name"@);
    let said = name_reports(cfg, dir, doc.fm, tokens.name).filter(says_rule(rule));
    let condition = name is Some && 0 < cfg.max_skill_name_tokens < tokens.name <= i64::MAX;
    let report = Report {
        rule,
        severity: Severity::Error,
        line: doc.fm.line_of("name"@),
        message: "name"@ + " is "@ + humanized(tokens.name as int) + " tokens, over the "@
            + humanized(cfg.max_skill_name_tokens as int) + " token limit"@,
    };
    assert(rank(rule) == 14 && rule != RULE_NAME_REQUIRED@ && rule != RULE_NAME_FORMAT@
        && rule != RULE_NAME_LENGTH@ && rule != RULE_NAME_DIR_MISMATCH@) by {
        law_rules_are_distinct();
    }
    lemma_name_found(cfg, cwd, t, doc, tokens, existing, rule);
    assert(said == if condition {
        seq![report]
    } else {
        Seq::empty()
    }) by {
        lemma_name_rule(cfg, dir, doc.fm, tokens.name, rule);
        lemma_budget_said(
            rule,
            doc.fm.line_of("name"@),
            "name"@,
            tokens.name,
            cfg.max_skill_name_tokens,
        );
    }
    lemma_made(
        cfg,
        t.path@,
        found(cfg, cwd, t, doc, tokens, existing, rule),
        skill_read(t, doc) && !off(cfg, rule),
        said,
        condition,
        report,
    );
}

proof fn lemma_description_found(
    cfg: Config,
    cwd: Seq<Step>,
    t: Target,
    doc: Document,
    tokens: Counts,
    existing: Seq<Seq<Step>>,
    rule: Seq<char>,
)
    requires
        rank(rule) == 9 || rank(rule) == 10 || rank(rule) == 15,
    ensures
        ({
            let said = description_reports(cfg, doc.fm, tokens.description).filter(says_rule(rule));
            found(cfg, cwd, t, doc, tokens, existing, rule) == if skill_read(t, doc) && !off(
                cfg,
                rule,
            ) {
                said.map_values(finding_in(cfg, t.path@))
            } else {
                Seq::empty()
            }
        }),
{
    lemma_parts_rule(cfg, cwd, t, doc, tokens, existing, rule);
    let said = description_reports(cfg, doc.fm, tokens.description).filter(says_rule(rule));
    assert(rule != RULE_NAME_REQUIRED@ && rule != RULE_NAME_FORMAT@ && rule != RULE_NAME_LENGTH@
        && rule != RULE_NAME_DIR_MISMATCH@ && rule != RULE_TOKENS_NAME@ && rule
        != RULE_ALLOWED_TOOLS_TYPE@ && rule != RULE_METADATA_TYPE@) by {
        law_rules_are_distinct();
    }
    lemma_name_silent(cfg, directory_name(cwd, t.path@), doc.fm, tokens.name, rule);
    let none = Seq::<Report>::empty();
    assert(none + said + none + none =~= said);
}

proof fn lemma_description_tokens_found(
    cfg: Config,
    cwd: Seq<Step>,
    t: Target,
    doc: Document,
    tokens: Counts,
    existing: Seq<Seq<Step>>,
)
    ensures
        found(cfg, cwd, t, doc, tokens, existing, RULE_TOKENS_DESCRIPTION@) == just(
            skill_read(t, doc) && declared(doc.fm, "description"@) is Some && 0
                < cfg.max_skill_description_tokens < tokens.description <= i64::MAX && !off(
                cfg,
                RULE_TOKENS_DESCRIPTION@,
            ),
            FindingView {
                file: t.path@,
                line: doc.fm.line_of("description"@),
                rule: RULE_TOKENS_DESCRIPTION@,
                severity: Severity::Error,
                message: "description"@ + " is "@ + humanized(tokens.description as int)
                    + " tokens, over the "@ + humanized(cfg.max_skill_description_tokens as int)
                    + " token limit"@,
            },
        ),
{
    let rule = RULE_TOKENS_DESCRIPTION@;
    let description = declared(doc.fm, "description"@);
    let said = description_reports(cfg, doc.fm, tokens.description).filter(says_rule(rule));
    let condition = description is Some && 0 < cfg.max_skill_description_tokens < tokens.description
        <= i64::MAX;
    let report = Report {
        rule,
        severity: Severity::Error,
        line: doc.fm.line_of("description"@),
        message: "description"@ + " is "@ + humanized(tokens.description as int)
            + " tokens, over the "@ + humanized(cfg.max_skill_description_tokens as int)
            + " token limit"@,
    };
    assert(rank(rule) == 15 && rule != RULE_DESCRIPTION_REQUIRED@
        && rule != RULE_DESCRIPTION_LENGTH@) by {
        law_rules_are_distinct();
    }
    lemma_description_found(cfg, cwd, t, doc, tokens, existing, rule);
    assert(said == if condition {
        seq![report]
    } else {
        Seq::empty()
    }) by {
        lemma_description_rule(cfg, doc.fm, tokens.description, rule);
        lemma_budget_said(
            rule,
            doc.fm.line_of("description"@),
            "description"@,
            tokens.description,
            cfg.max_skill_description_tokens,
        );
    }
    lemma_made(
        cfg,
        t.path@,
        found(cfg, cwd, t, doc, tokens, existing, rule),
        skill_read(t, doc) && !off(cfg, rule),
        said,
        condition,
        report,
    );
}

/// What is found of a skill's description: that it is missing, or over 1024
/// characters long. Both stand on the description's line.
pub proof fn law_description_findings(
    cfg: Config,
    cwd: Seq<Step>,
    t: Target,
    doc: Document,
    tokens: Counts,
    existing: Seq<Seq<Step>>,
)
    requires
        declared(doc.fm, "description"@) matches Some(description) ==> description.len() <= i64::MAX,
    ensures
        ({
            let read = skill_read(t, doc);
            let description = declared(doc.fm, "description"@);
            let line = doc.fm.line_of("description"@);
            &&& found(cfg, cwd, t, doc, tokens, existing, "description.required"@) == just(
                read && description is None && !off(cfg, "description.required"@),
                FindingView {
                    file: t.path@,
                    line,
                    rule: "description.required"@,
                    severity: Severity::Error,
                    message: "front matter must declare a non-empty string description saying when to use the skill"@,
                },
            )
            &&& found(cfg, cwd, t, doc, tokens, existing, "description.length"@) == just(
                read && description is Some && description->0.len() > 1024 && !off(
                    cfg,
                    "description.length"@,
                ),
                FindingView {
                    file: t.path@,
                    line,
                    rule: "description.length"@,
                    severity: Severity::Error,
                    message: "description is "@ + humanized(description->0.len() as int)
                        + " characters, over the 1,024 character limit"@,
                },
            )
        }),
{
    lemma_description_required_found(cfg, cwd, t, doc, tokens, existing);
    lemma_description_length_found(cfg, cwd, t, doc, tokens, existing);
}

proof fn lemma_description_required_found(
    cfg: Config,
    cwd: Seq<Step>,
    t: Target,
    doc: Document,
    tokens: Counts,
    existing: Seq<Seq<Step>>,
)
    ensures
        found(cfg, cwd, t, doc, tokens, existing, RULE_DESCRIPTION_REQUIRED@) == just(
            skill_read(t, doc) && declared(doc.fm, "description"@) is None && !off(
                cfg,
                RULE_DESCRIPTION_REQUIRED@,
            ),
            FindingView {
                file: t.path@,
                line: doc.fm.line_of("description"@),
                rule: RULE_DESCRIPTION_REQUIRED@,
                severity: Severity::Error,
                message: "front matter must declare a non-empty string description saying when to use the skill"@,
            },
        ),
{
    let rule = RULE_DESCRIPTION_REQUIRED@;
    let description = declared(doc.fm, "description"@);
    let said = description_reports(cfg, doc.fm, tokens.description).filter(says_rule(rule));
    let condition = description is None;
    let report = Report {
        rule,
        severity: Severity::Error,
        line: doc.fm.line_of("description"@),
        message: "front matter must declare a non-empty string description saying when to use the skill"@,
    };
    assert(rank(rule) == 9 && rule != RULE_DESCRIPTION_LENGTH@
        && rule != RULE_TOKENS_DESCRIPTION@) by {
        law_rules_are_distinct();
    }
    lemma_description_found(cfg, cwd, t, doc, tokens, existing, rule);
    assert(said == if condition {
        seq![report]
    } else {
        Seq::empty()
    }) by {
        lemma_description_rule(cfg, doc.fm, tokens.description, rule);
    }
    lemma_made(
        cfg,
        t.path@,
        found(cfg, cwd, t, doc, tokens, existing, rule),
        skill_read(t, doc) && !off(cfg, rule),
        said,
        condition,
        report,
    );
}

proof fn lemma_description_length_found(
    cfg: Config,
    cwd: Seq<Step>,
    t: Target,
    doc: Document,
    tokens: Counts,
    existing: Seq<Seq<Step>>,
)
    requires
        declared(doc.fm, "description"@) matches Some(description) ==> description.len() <= i64::MAX,
    ensures
        ({
            let description = declared(doc.fm, "description"@);
            found(cfg, cwd, t, doc, tokens, existing, RULE_DESCRIPTION_LENGTH@) == just(
                skill_read(t, doc) && description is Some && description->0.len() > 1024
                    && !off(cfg, RULE_DESCRIPTION_LENGTH@),
                FindingView {
                    file: t.path@,
                    line: doc.fm.line_of("description"@),
                    rule: RULE_DESCRIPTION_LENGTH@,
                    severity: Severity::Error,
                    message: "description is "@ + humanized(description->0.len() as int)
                        + " characters, over the 1,024 character limit"@,
                },
            )
        }),
{
    let rule = RULE_DESCRIPTION_LENGTH@;
    let description = declared(doc.fm, "description"@);
    let said = description_reports(cfg, doc.fm, tokens.description).filter(says_rule(rule));
    let condition = description is Some && description->0.len() > 1024;
    let report = Report {
        rule,
        severity: Severity::Error,
        line: doc.fm.line_of("description"@),
        message: "description is "@ + humanized(description->0.len() as int)
            + " characters, over the 1,024 character limit"@,
    };
    assert(rank(rule) == 10 && rule != RULE_DESCRIPTION_REQUIRED@
        && rule != RULE_TOKENS_DESCRIPTION@) by {
        law_rules_are_distinct();
    }
    lemma_description_found(cfg, cwd, t, doc, tokens, existing, rule);
    assert(said == if condition {
        seq![report]
    } else {
        Seq::empty()
    }) by {
        lemma_description_rule(cfg, doc.fm, tokens.description, rule);
        if condition {
            lemma_description_limit(humanized(description->0.len() as int));
        }
    }
    lemma_made(
        cfg,
        t.path@,
        found(cfg, cwd, t, doc, tokens, existing, rule),
        skill_read(t, doc) && !off(cfg, rule),
        said,
        condition,
        report,
    );
}

/// How the limit on a description's length reads.
proof fn lemma_description_limit(count: Seq<char>)
    ensures
        over_limit("description"@, count, "character"@, humanized(MAX_DESCRIPTION_CHARS as int))
            == "description is "@ + count + " characters, over the 1,024 character limit"@,
{
    reveal_strlit("description");
    reveal_strlit(" is ");
    reveal_strlit("description is ");
    reveal_strlit(" ");
    reveal_strlit("character");
    reveal_strlit("s, over the ");
    reveal_strlit(" limit");
    reveal_strlit(" characters, over the 1,024 character limit");
    let limit = humanized(1024);
    law_humanized_groups(1);
    law_humanized_groups(1024);
    assert(decimal(1) =~= seq!['1']);
    assert(limit =~= seq!['1', ',', '0', '2', '4']);
    assert("description"@ + " is "@ =~= "description is "@);
    assert(" "@ + "character"@ + "s, over the "@ + limit + " "@ + "character"@ + " limit"@
        =~= " characters, over the 1,024 character limit"@);
    assert(over_limit("description"@, count, "character"@, limit) =~= ("description"@ + " is "@)
        + count + (" "@ + "character"@ + "s, over the "@ + limit + " "@ + "character"@
        + " limit"@));
}

/// What is found of the types of a skill's values: allowed tools that are
/// neither a string nor a list of strings, and metadata that is no mapping, each
/// on its key's line.
pub proof fn law_type_findings(
    cfg: Config,
    cwd: Seq<Step>,
    t: Target,
    doc: Document,
    tokens: Counts,
    existing: Seq<Seq<Step>>,
)
    ensures
        ({
            let tools = doc.fm.field("allowed-tools"@);
            found(cfg, cwd, t, doc, tokens, existing, "allowed-tools.type"@) == just(
                skill_read(t, doc) && tools is Some && !(tools->0.value is Scalar)
                    && !(tools->0.value is Strings) && !off(cfg, "allowed-tools.type"@),
                FindingView {
                    file: t.path@,
                    line: tools->0.line as nat,
                    rule: "allowed-tools.type"@,
                    severity: Severity::Error,
                    message: "allowed-tools must be a list of tool names or a comma-separated string"@,
                },
            )
        }),
        ({
            let metadata = doc.fm.field("metadata"@);
            found(cfg, cwd, t, doc, tokens, existing, "metadata.type"@) == just(
                skill_read(t, doc) && metadata is Some && !(metadata->0.value is Mapping)
                    && !off(cfg, "metadata.type"@),
                FindingView {
                    file: t.path@,
                    line: metadata->0.line as nat,
                    rule: "metadata.type"@,
                    severity: Severity::Error,
                    message: "metadata must be a mapping of keys to values"@,
                },
            )
        }),
{
    lemma_tools_found(cfg, cwd, t, doc, tokens, existing);
    lemma_metadata_found(cfg, cwd, t, doc, tokens, existing);
}

proof fn lemma_types_found(
    cfg: Config,
    cwd: Seq<Step>,
    t: Target,
    doc: Document,
    tokens: Counts,
    existing: Seq<Seq<Step>>,
    rule: Seq<char>,
)
    requires
        rule == RULE_ALLOWED_TOOLS_TYPE@ || rule == RULE_METADATA_TYPE@,
    ensures
        ({
            let said = if rule == RULE_METADATA_TYPE@ {
                metadata_reports(doc.fm)
            } else {
                allowed_tools_reports(doc.fm)
            };
            found(cfg, cwd, t, doc, tokens, existing, rule) == if skill_read(t, doc) && !off(
                cfg,
                rule,
            ) {
                said.map_values(finding_in(cfg, t.path@))
            } else {
                Seq::empty()
            }
        }),
{
    assert(4 < rank(rule) < 13 && rule != RULE_NAME_REQUIRED@ && rule != RULE_NAME_FORMAT@ && rule
        != RULE_NAME_LENGTH@ && rule != RULE_NAME_DIR_MISMATCH@ && rule != RULE_TOKENS_NAME@ && rule
        != RULE_DESCRIPTION_REQUIRED@ && rule != RULE_DESCRIPTION_LENGTH@ && rule
        != RULE_TOKENS_DESCRIPTION@ && RULE_ALLOWED_TOOLS_TYPE@ != RULE_METADATA_TYPE@) by {
        law_rules_are_distinct();
    }
    let said = if rule == RULE_METADATA_TYPE@ {
        metadata_reports(doc.fm)
    } else {
        allowed_tools_reports(doc.fm)
    };
    lemma_parts_rule(cfg, cwd, t, doc, tokens, existing, rule);
    lemma_name_silent(cfg, directory_name(cwd, t.path@), doc.fm, tokens.name, rule);
    lemma_description_silent(cfg, doc.fm, tokens.description, rule);
    let none = Seq::<Report>::empty();
    assert(none + none + said + none =~= said);
    assert(none + none + none + said =~= said);
}

proof fn lemma_tools_found(
    cfg: Config,
    cwd: Seq<Step>,
    t: Target,
    doc: Document,
    tokens: Counts,
    existing: Seq<Seq<Step>>,
)
    ensures
        ({
            let tools = doc.fm.field("allowed-tools"@);
            found(cfg, cwd, t, doc, tokens, existing, RULE_ALLOWED_TOOLS_TYPE@) == just(
                skill_read(t, doc) && tools is Some && !(tools->0.value is Scalar)
                    && !(tools->0.value is Strings) && !off(cfg, RULE_ALLOWED_TOOLS_TYPE@),
                FindingView {
                    file: t.path@,
                    line: tools->0.line as nat,
                    rule: RULE_ALLOWED_TOOLS_TYPE@,
                    severity: Severity::Error,
                    message: "allowed-tools must be a list of tool names or a comma-separated string"@,
                },
            )
        }),
{
    let rule = RULE_ALLOWED_TOOLS_TYPE@;
    let field = doc.fm.field("allowed-tools"@);
    assert(RULE_ALLOWED_TOOLS_TYPE@ != RULE_METADATA_TYPE@) by {
        law_rules_are_distinct();
    }
    lemma_types_found(cfg, cwd, t, doc, tokens, existing, rule);
    lemma_made(
        cfg,
        t.path@,
        found(cfg, cwd, t, doc, tokens, existing, rule),
        skill_read(t, doc) && !off(cfg, rule),
        allowed_tools_reports(doc.fm),
        field is Some && !(field->0.value is Scalar) && !(field->0.value is Strings),
        Report {
            rule,
            severity: Severity::Error,
            line: doc.fm.line_of("allowed-tools"@),
            message: "allowed-tools must be a list of tool names or a comma-separated string"@,
        },
    );
}

proof fn lemma_metadata_found(
    cfg: Config,
    cwd: Seq<Step>,
    t: Target,
    doc: Document,
    tokens: Counts,
    existing: Seq<Seq<Step>>,
)
    ensures
        ({
            let metadata = doc.fm.field("metadata"@);
            found(cfg, cwd, t, doc, tokens, existing, RULE_METADATA_TYPE@) == just(
                skill_read(t, doc) && metadata is Some && !(metadata->0.value is Mapping)
                    && !off(cfg, RULE_METADATA_TYPE@),
                FindingView {
                    file: t.path@,
                    line: metadata->0.line as nat,
                    rule: RULE_METADATA_TYPE@,
                    severity: Severity::Error,
                    message: "metadata must be a mapping of keys to values"@,
                },
            )
        }),
{
    let rule = RULE_METADATA_TYPE@;
    let field = doc.fm.field("metadata"@);
    assert(RULE_ALLOWED_TOOLS_TYPE@ != RULE_METADATA_TYPE@) by {
        law_rules_are_distinct();
    }
    lemma_types_found(cfg, cwd, t, doc, tokens, existing, rule);
    lemma_made(
        cfg,
        t.path@,
        found(cfg, cwd, t, doc, tokens, existing, rule),
        skill_read(t, doc) && !off(cfg, rule),
        metadata_reports(doc.fm),
        field is Some && !(field->0.value is Mapping),
        Report {
            rule,
            severity: Severity::Error,
            line: doc.fm.line_of("metadata"@),
            message: "metadata must be a mapping of keys to values"@,
        },
    );
}

/// Whether no file is where a reference leads.
pub open spec fn dangling(existing: Seq<Seq<Step>>) -> spec_fn(ReferenceView) -> bool {
    |r: ReferenceView| forall|i: int| 0 <= i < existing.len() ==> #[trigger] existing[i] != r.resolved
}

/// What is found of a reference that leads to no file.
pub open spec fn dangling_finding(t: Target) -> spec_fn(ReferenceView) -> FindingView {
    |r: ReferenceView|
        FindingView {
            file: t.path@,
            line: r.line,
            rule: "file-reference.missing"@,
            severity: Severity::Error,
            message: "referenced file "@ + debug_quoted(r.target) + " does not exist"@,
        }
}

proof fn lemma_missing_found(
    cfg: Config,
    t: Target,
    references: Seq<ReferenceView>,
    existing: Seq<Seq<Step>>,
)
    ensures
        missing_reports(references, existing).map_values(finding_in(cfg, t.path@))
            == references.filter(dangling(existing)).map_values(dangling_finding(t)),
    decreases references.len(),
{
    let make = finding_in(cfg, t.path@);
    let found = dangling_finding(t);
    let p = dangling(existing);
    if references.len() == 0 {
        lemma_filter_none(references, p);
        assert(missing_reports(references, existing).map_values(make) =~= references.filter(
            p,
        ).map_values(found));
    } else {
        let front = references.drop_last();
        let last = references.last();
        lemma_missing_found(cfg, t, front, existing);
        assert(references =~= front + seq![last]);
        Seq::filter_distributes_over_add(front, seq![last], p);
        lemma_filter_one(last, p);
        let some = front.filter(p);
        let before = missing_reports(front, existing);
        let said = reference_reports(last, existing);
        assert((before + said).map_values(make) =~= before.map_values(make) + said.map_values(make));
        if p(last) {
            assert(said.map_values(make) =~= seq![found(last)]);
            assert((some + seq![last]).map_values(found) =~= some.map_values(found) + seq![
                found(last),
            ]);
        } else {
            assert(existing.contains(last.resolved));
            assert(said.map_values(make) =~= Seq::empty());
            assert(references.filter(p) =~= some);
            assert(before.map_values(make) + Seq::empty() =~= before.map_values(make));
        }
    }
}

/// What is found of references: an error for each that leads to no file, in the
/// order of the references and on the reference's line.
pub proof fn law_reference_findings(
    cfg: Config,
    cwd: Seq<Step>,
    t: Target,
    doc: Document,
    tokens: Counts,
    existing: Seq<Seq<Step>>,
)
    ensures
        found(cfg, cwd, t, doc, tokens, existing, "file-reference.missing"@) == if off(
            cfg,
            "file-reference.missing"@,
        ) {
            seq![]
        } else {
            file_references(cwd, t, doc).filter(dangling(existing)).map_values(dangling_finding(t))
        },
{
    let rule = "file-reference.missing"@;
    assert(rank(rule) == 16 && rule != RULE_TOKENS_CONTENT@) by {
        law_rules_are_distinct();
    }
    lemma_file_rule(cfg, cwd, t, doc, tokens, existing, rule);
    let references = file_references(cwd, t, doc);
    let missing = missing_reports(references, existing);
    let none = Seq::<Report>::empty();
    if skill_read(t, doc) {
        lemma_front_silent(cfg, cwd, t, doc, tokens, rule);
    } else {
        lemma_unread_silent(cfg, cwd, t, doc, tokens, rule);
    }
    assert(none + missing + none =~= missing);
    lemma_missing_found(cfg, t, references, existing);
}

/// Findings come in the order of their rules, and are of no other rules than
/// these seventeen.
pub proof fn law_findings_in_report_order(
    cfg: Config,
    cwd: Seq<Step>,
    t: Target,
    doc: Document,
    tokens: Counts,
    existing: Seq<Seq<Step>>,
)
    ensures
        ({
            let out = file_findings(cfg, cwd, t, doc, tokens, existing);
            &&& forall|i: int, j: int|
                0 <= i < j < out.len() ==> rank((#[trigger] out[i]).rule) <= rank(
                    (#[trigger] out[j]).rule,
                )
            &&& forall|i: int| 0 <= i < out.len() ==> rank((#[trigger] out[i]).rule) < 17
        }),
        rank("frontmatter.missing"@) == 0,
        rank("frontmatter.not-first"@) == 1,
        rank("frontmatter.unterminated"@) == 2,
        rank("frontmatter.invalid"@) == 3,
        rank("frontmatter.unknown-key"@) == 4,
        rank("name.required"@) == 5,
        rank("name.format"@) == 6,
        rank("name.length"@) == 7,
        rank("name.dir-mismatch"@) == 8,
        rank("description.required"@) == 9,
        rank("description.length"@) == 10,
        rank("allowed-tools.type"@) == 11,
        rank("metadata.type"@) == 12,
        rank("tokens.content"@) == 13,
        rank("tokens.name"@) == 14,
        rank("tokens.description"@) == 15,
        rank("file-reference.missing"@) == 16,
{
    let out = file_findings(cfg, cwd, t, doc, tokens, existing);
    let reports = file_reports(cfg, cwd, t, doc, tokens, existing);
    law_report_order(findings_of(cfg, t.path@, reports));
    law_rules_are_distinct();
    assert forall|i: int| 0 <= i < out.len() implies rank((#[trigger] out[i]).rule) < 17 by {
        assert(reported(out, out[i].rule));
        law_reported_rules_are_known(cfg, cwd, t, doc, tokens, existing, out[i].rule);
    }
}

/// What a line refers to inside the tree: of its targets those that lead to the
/// root or below it, in order, each with the file that it leads to.
pub proof fn law_line_references(scope: Scope, line: nat, targets: Seq<Seq<char>>)
    ensures
        scope.line_references(line, targets) == targets.filter(
            |target: Seq<char>|
                scope.root.is_prefix_of(
                    resolved(scope.cwd, joined(scope.dir, path_steps(target))),
                ),
        ).map_values(
            |target: Seq<char>|
                ReferenceView {
                    line,
                    target,
                    resolved: resolved(scope.cwd, joined(scope.dir, path_steps(target))),
                },
        ),
    decreases targets.len(),
{
    let p = |target: Seq<char>|
        scope.root.is_prefix_of(resolved(scope.cwd, joined(scope.dir, path_steps(target))));
    let make = |target: Seq<char>|
        ReferenceView {
            line,
            target,
            resolved: resolved(scope.cwd, joined(scope.dir, path_steps(target))),
        };
    reveal(Seq::filter);
    if targets.len() == 0 {
        assert(targets.filter(p).map_values(make) =~= Seq::empty());
    } else {
        let front = targets.drop_last();
        law_line_references(scope, line, front);
        assert(scope.line_references(line, targets) =~= targets.filter(p).map_values(make));
    }
}

/// Where a file's references lead: a target is read from the directory that
/// holds the file, and that directory, where it is relative, from the working
/// directory. The tree is the one that the file was found in, and the first line
/// of the body is the one behind the front matter.
pub proof fn law_reference_scope(cwd: Seq<Step>, t: Target, doc: Document, dir: Seq<Step>, file: Step)
    ensures
        scope_of(cwd, t, doc.fm).cwd == cwd,
        path_steps(t.path@) == dir.push(file) && !(file is Root) ==> scope_of(cwd, t, doc.fm).dir
            == dir,
        path_steps(t.path@) == dir.push(file) && file is Root ==> scope_of(
            cwd,
            t,
            doc.fm,
        ).dir.len() == 0,
        path_steps(t.path@).len() == 0 ==> scope_of(cwd, t, doc.fm).dir.len() == 0,
        scope_of(cwd, t, doc.fm).root == resolved(cwd, t.root@),
        scope_of(cwd, t, doc.fm).offset == if doc.fm.present {
            doc.fm.end_line as nat
        } else {
            0
        },
{
    law_parent_and_name(dir, file);
    if path_steps(t.path@).len() == 0 {
        assert(path_steps(t.path@) =~= Seq::empty());
    }
}

/// A reference from a file leads to the place that its target names behind the
/// file's directory.
pub proof fn law_reference_place(cwd: Seq<Step>, dir: Seq<Step>, target: Seq<Step>)
    requires
        target.len() > 0 ==> !(target[0] is Root),
    ensures
        dir.len() > 0 && dir[0] is Root ==> resolved(cwd, joined(dir, target)) == cleaned(
            dir + target,
        ),
        dir.len() > 0 && !(dir[0] is Root) ==> resolved(cwd, joined(dir, target)) == cleaned(
            cwd + dir + target,
        ),
        dir.len() == 0 ==> resolved(cwd, joined(dir, target)) == cleaned(cwd + target),
{
    let path = joined(dir, target);
    law_joining(dir, target);
    law_resolving(cwd, path);
    if dir.len() == 0 {
    } else {
        assert(path[0] == dir[0]);
        if !(dir[0] is Root) {
            if target.len() > 0 && target[0] is Current {
                let rest = target.drop_first();
                law_current_adds_nothing(cwd + dir, rest);
                assert(cwd + dir + seq![Step::Current] + rest =~= cwd + dir + target);
                assert(cwd + path =~= cwd + dir + rest);
            } else {
                assert(cwd + path =~= cwd + dir + target);
            }
        }
    }
}

/// The references that the lines of a body make: those of each line of prose in
/// turn, with the line's own number, and none of a fence or a line inside a
/// block.
pub proof fn law_references_by_line(scope: Scope, lines: Seq<Seq<char>>)
    ensures
        scope.references(lines) == Seq::new(
            lines.len(),
            |i: int|
                if prose(fence_after(lines.take(i)), lines[i]) {
                    scope.line_references((scope.offset + i + 1) as nat, line_targets(lines[i]))
                } else {
                    Seq::<ReferenceView>::empty()
                },
        ).flatten(),
    decreases lines.len(),
{
    let each = |i: int|
        if prose(fence_after(lines.take(i)), lines[i]) {
            scope.line_references((scope.offset + i + 1) as nat, line_targets(lines[i]))
        } else {
            Seq::<ReferenceView>::empty()
        };
    let all = Seq::new(lines.len(), each);
    if lines.len() == 0 {
        assert(all.flatten() =~= Seq::empty());
    } else {
        let front = lines.drop_last();
        let n = lines.len() - 1;
        let before = Seq::new(
            front.len(),
            |i: int|
                if prose(fence_after(front.take(i)), front[i]) {
                    scope.line_references((scope.offset + i + 1) as nat, line_targets(front[i]))
                } else {
                    Seq::<ReferenceView>::empty()
                },
        );
        law_references_by_line(scope, front);
        assert forall|i: int| 0 <= i < n implies before[i] == #[trigger] all[i] by {
            assert(front.take(i) =~= lines.take(i));
        }
        assert(lines.take(n) =~= front);
        assert(all =~= before.push(each(n)));
        before.lemma_flatten_push(each(n));
    }
}

/// The references of a file are those that the lines of its body make.
pub proof fn law_file_references(cwd: Seq<Step>, t: Target, doc: Document)
    ensures
        file_references(cwd, t, doc) == scope_of(cwd, t, doc.fm).references(
            split_by(doc.body@, '\n'),
        ),
{
}

/// A string that front matter declares counts without the white space around
/// it, and not at all where nothing else is left. What is no string is not
/// declared.
pub proof fn law_declared(
    fm: Frontmatter,
    key: Seq<char>,
    before: Seq<char>,
    text: Seq<char>,
    after: Seq<char>,
)
    requires
        forall|i: int| 0 <= i < before.len() ==> white_space(#[trigger] before[i]),
        forall|i: int| 0 <= i < after.len() ==> white_space(#[trigger] after[i]),
        text.len() > 0 ==> !white_space(text[0]) && !white_space(text[text.len() - 1]),
    ensures
        fm.text_of(key) == Some(before + text + after) ==> declared(fm, key) == if text.len() > 0 {
            Some(text)
        } else {
            None
        },
        fm.text_of(key) is None ==> declared(fm, key) is None,
{
    law_trimming(before, text, after);
}

/// The directory that a skill is to be named after: the one that holds the file,
/// where it has a name in UTF-8 and is not the working directory.
pub proof fn law_directory_of_skill(
    cwd: Seq<Step>,
    path: Seq<char>,
    above: Seq<Step>,
    dir: Step,
    file: Step,
)
    requires
        !(file is Root),
    ensures
        resolved(cwd, path_steps(path)) == above.push(dir).push(file) ==> directory_name(cwd, path)
            == (if above.push(dir) == cleaned(cwd) || !(dir is Name) {
            None
        } else {
            Some(dir->Name_0)
        }),
        resolved(cwd, path_steps(path)).len() <= 1 ==> directory_name(cwd, path) is None,
{
    law_parent_and_name(above, dir);
    law_parent_and_name(above.push(dir), file);
    let place = resolved(cwd, path_steps(path));
    if place.len() == 1 && !(place[0] is Root) {
        assert(place.drop_last() =~= Seq::empty());
    }
}

/// What is counted: the body, and a skill's name and description where its
/// front matter was read and declares them. What is not declared costs nothing.
pub proof fn law_measured<C: Counter>(counter: C, kind: Kind, doc: Document, counts: Counts)
    ensures
        measured(counter, kind, doc, counts) <==> {
            let read = kind == Kind::Skill && doc.err is None && doc.fm.present;
            let name = declared(doc.fm, "name"@);
            let description = declared(doc.fm, "description"@);
            &&& exists|s: &str|
                s@ == doc.body@ && #[trigger] call_ensures(
                    C::count,
                    (&counter, s),
                    counts.content,
                )
            &&& read && name is Some ==> exists|s: &str|
                s@ == name->0 && #[trigger] call_ensures(C::count, (&counter, s), counts.name)
            &&& !(read && name is Some) ==> counts.name == 0
            &&& read && description is Some ==> exists|s: &str|
                s@ == description->0 && #[trigger] call_ensures(
                    C::count,
                    (&counter, s),
                    counts.description,
                )
            &&& !(read && description is Some) ==> counts.description == 0
        },
{
}

} // verus!
