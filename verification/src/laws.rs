//! What holds of every lint run.
use crate::config::{Config, MAX_DESCRIPTION_CHARS, MAX_NAME_CHARS};
use crate::discover::{Kind, Target};
use crate::fence::{closes, fence_after, law_block_hides_lines};
use crate::finding::{law_errors_and_warnings, severity_count, Counts, FindingView, Severity};
use crate::parse::{Document, ErrKind, Frontmatter};
use crate::format::debug_quoted;
use crate::path::{cleaned, parent_of, path_steps, resolved, Step};
use crate::patterns::name_format;
use crate::reference::line_targets;
use crate::report::{
    allowed_tools_reports, budget_reports, declared, description_reports,
    directory_name, enabled, error_rule, file_findings, file_references,
    file_reports, finding_in, findings_of, front_reports, key_reports, keys_reports, known_key,
    lemma_findings_add, lemma_findings_none, lemma_findings_one,
    metadata_reports, missing_reports, name_reports, over_budget,
    reference_reports, scope_of, ReferenceView, Report, Scope,
};
use crate::rules::{
    by_rule, law_report_keeps_findings, lemma_rank_is, of_rank, rank, ranked, RULES, RULE_ALLOWED_TOOLS_TYPE,
    RULE_DESCRIPTION_LENGTH, RULE_DESCRIPTION_REQUIRED, RULE_FILE_REFERENCE_MISSING,
    RULE_FRONTMATTER_INVALID, RULE_FRONTMATTER_MISSING, RULE_FRONTMATTER_NOT_FIRST,
    RULE_FRONTMATTER_UNKNOWN_KEY, RULE_FRONTMATTER_UNTERMINATED, RULE_METADATA_TYPE,
    RULE_NAME_DIR_MISMATCH, RULE_NAME_FORMAT, RULE_NAME_LENGTH, RULE_NAME_REQUIRED,
    RULE_TOKENS_CONTENT, RULE_TOKENS_DESCRIPTION, RULE_TOKENS_NAME,
};
use crate::text::texts;
use vstd::prelude::*;

verus! {

/// No two rules share an id, so each id has the place that it has in the list
/// of rules.
pub proof fn law_rules_are_distinct()
    ensures
        rank(RULE_FRONTMATTER_MISSING@) == 0,
        rank(RULE_FRONTMATTER_NOT_FIRST@) == 1,
        rank(RULE_FRONTMATTER_UNTERMINATED@) == 2,
        rank(RULE_FRONTMATTER_INVALID@) == 3,
        rank(RULE_FRONTMATTER_UNKNOWN_KEY@) == 4,
        rank(RULE_NAME_REQUIRED@) == 5,
        rank(RULE_NAME_FORMAT@) == 6,
        rank(RULE_NAME_LENGTH@) == 7,
        rank(RULE_NAME_DIR_MISMATCH@) == 8,
        rank(RULE_DESCRIPTION_REQUIRED@) == 9,
        rank(RULE_DESCRIPTION_LENGTH@) == 10,
        rank(RULE_ALLOWED_TOOLS_TYPE@) == 11,
        rank(RULE_METADATA_TYPE@) == 12,
        rank(RULE_TOKENS_CONTENT@) == 13,
        rank(RULE_TOKENS_NAME@) == 14,
        rank(RULE_TOKENS_DESCRIPTION@) == 15,
        rank(RULE_FILE_REFERENCE_MISSING@) == 16,
        forall|i: int| 0 <= i < 17 ==> rank((#[trigger] RULES[i])@) == i,
{
    reveal_strlit("frontmatter.missing");
    reveal_strlit("frontmatter.not-first");
    reveal_strlit("frontmatter.unterminated");
    reveal_strlit("frontmatter.invalid");
    reveal_strlit("frontmatter.unknown-key");
    reveal_strlit("name.required");
    reveal_strlit("name.format");
    reveal_strlit("name.length");
    reveal_strlit("name.dir-mismatch");
    reveal_strlit("description.required");
    reveal_strlit("description.length");
    reveal_strlit("allowed-tools.type");
    reveal_strlit("metadata.type");
    reveal_strlit("tokens.content");
    reveal_strlit("tokens.name");
    reveal_strlit("tokens.description");
    reveal_strlit("file-reference.missing");
    assert(RULES[0] == RULE_FRONTMATTER_MISSING);
    assert(RULES[1] == RULE_FRONTMATTER_NOT_FIRST);
    assert(RULES[2] == RULE_FRONTMATTER_UNTERMINATED);
    assert(RULES[3] == RULE_FRONTMATTER_INVALID);
    assert(RULES[4] == RULE_FRONTMATTER_UNKNOWN_KEY);
    assert(RULES[5] == RULE_NAME_REQUIRED);
    assert(RULES[6] == RULE_NAME_FORMAT);
    assert(RULES[7] == RULE_NAME_LENGTH);
    assert(RULES[8] == RULE_NAME_DIR_MISMATCH);
    assert(RULES[9] == RULE_DESCRIPTION_REQUIRED);
    assert(RULES[10] == RULE_DESCRIPTION_LENGTH);
    assert(RULES[11] == RULE_ALLOWED_TOOLS_TYPE);
    assert(RULES[12] == RULE_METADATA_TYPE);
    assert(RULES[13] == RULE_TOKENS_CONTENT);
    assert(RULES[14] == RULE_TOKENS_NAME);
    assert(RULES[15] == RULE_TOKENS_DESCRIPTION);
    assert(RULES[16] == RULE_FILE_REFERENCE_MISSING);
    assert(RULES[0]@.len() == 19);
    assert(RULES[1]@.len() == 21);
    assert(RULES[2]@.len() == 24);
    assert(RULES[3]@.len() == 19);
    assert(RULES[4]@.len() == 23);
    assert(RULES[5]@.len() == 13);
    assert(RULES[6]@.len() == 11);
    assert(RULES[7]@.len() == 11);
    assert(RULES[8]@.len() == 17);
    assert(RULES[9]@.len() == 20);
    assert(RULES[10]@.len() == 18);
    assert(RULES[11]@.len() == 18);
    assert(RULES[12]@.len() == 13);
    assert(RULES[13]@.len() == 14);
    assert(RULES[14]@.len() == 11);
    assert(RULES[15]@.len() == 18);
    assert(RULES[16]@.len() == 22);
    assert(RULES[0]@[12] == 'm' && RULES[3]@[12] == 'i');
    assert(RULES[5]@[0] == 'n' && RULES[12]@[0] == 'm');
    assert(RULES[6]@[5] == 'f' && RULES[7]@[5] == 'l');
    assert(RULES[6]@[0] == 'n' && RULES[7]@[0] == 'n' && RULES[14]@[0] == 't');
    assert(RULES[10]@[0] == 'd' && RULES[11]@[0] == 'a' && RULES[15]@[0] == 't');
    assert forall|i: int, j: int| 0 <= i < j < 17 implies (#[trigger] RULES[i])@ != (
    #[trigger] RULES[j])@ by {
        assert(i == 0 || i == 1 || i == 2 || i == 3 || i == 4 || i == 5 || i == 6 || i == 7 || i == 8
            || i == 9 || i == 10 || i == 11 || i == 12 || i == 13 || i == 14 || i == 15);
        assert(j == 1 || j == 2 || j == 3 || j == 4 || j == 5 || j == 6 || j == 7 || j == 8 || j == 9
            || j == 10 || j == 11 || j == 12 || j == 13 || j == 14 || j == 15 || j == 16);
    }
    assert forall|i: int| 0 <= i < 17 implies rank((#[trigger] RULES[i])@) == i by {
        lemma_rank_is(RULES[i]@, i as nat);
    }
}

/// Whether some report is of the rule.
pub open spec fn says(reports: Seq<Report>, rule: Seq<char>) -> bool {
    exists|i: int| 0 <= i < reports.len() && (#[trigger] reports[i]).rule == rule
}

/// Whether some finding is of the rule.
pub open spec fn reported(findings: Seq<FindingView>, rule: Seq<char>) -> bool {
    exists|i: int| 0 <= i < findings.len() && (#[trigger] findings[i]).rule == rule
}

/// Whether every report passes.
spec fn each(reports: Seq<Report>, p: spec_fn(Report) -> bool) -> bool {
    forall|i: int| 0 <= i < reports.len() ==> p(#[trigger] reports[i])
}

proof fn lemma_says_add(a: Seq<Report>, b: Seq<Report>, rule: Seq<char>)
    ensures
        says(a + b, rule) <==> says(a, rule) || says(b, rule),
{
    let all = a + b;
    if says(a, rule) {
        let i = choose|i: int| 0 <= i < a.len() && (#[trigger] a[i]).rule == rule;
        assert(all[i] == a[i]);
    }
    if says(b, rule) {
        let i = choose|i: int| 0 <= i < b.len() && (#[trigger] b[i]).rule == rule;
        assert(all[a.len() + i] == b[i]);
    }
    if says(all, rule) {
        let i = choose|i: int| 0 <= i < all.len() && (#[trigger] all[i]).rule == rule;
        if i < a.len() {
            assert(a[i] == all[i]);
        } else {
            assert(b[i - a.len()] == all[i]);
        }
    }
}

proof fn lemma_says_one(report: Report, rule: Seq<char>)
    ensures
        says(seq![report], rule) <==> report.rule == rule,
{
    assert(seq![report][0] == report);
}

/// The report that a finding comes from.
proof fn lemma_finding_source(cfg: Config, path: Seq<char>, reports: Seq<Report>, k: int) -> (i: int)
    requires
        0 <= k < findings_of(cfg, path, reports).len(),
    ensures
        0 <= i < reports.len(),
        enabled(cfg)(reports[i]),
        findings_of(cfg, path, reports)[k] == finding_in(cfg, path)(reports[i]),
{
    let kept = reports.filter(enabled(cfg));
    reports.lemma_filter_pred(enabled(cfg), k);
    assert(kept.contains(kept[k]));
    reports.lemma_filter_contains_rev(enabled(cfg), kept[k]);
    choose|i: int| 0 <= i < reports.len() && reports[i] == kept[k]
}

/// The finding that a report of a rule that is not switched off makes.
proof fn lemma_report_made(cfg: Config, path: Seq<char>, reports: Seq<Report>, i: int) -> (k: int)
    requires
        0 <= i < reports.len(),
        enabled(cfg)(reports[i]),
    ensures
        0 <= k < findings_of(cfg, path, reports).len(),
        findings_of(cfg, path, reports)[k] == finding_in(cfg, path)(reports[i]),
{
    let kept = reports.filter(enabled(cfg));
    reports.lemma_filter_contains(enabled(cfg), i);
    choose|k: int| 0 <= k < kept.len() && kept[k] == reports[i]
}

/// Ordering moves findings and does nothing else to them.
proof fn lemma_ordered_same(findings: Seq<FindingView>, f: FindingView)
    ensures
        by_rule(findings).contains(f) <==> findings.contains(f),
        by_rule(findings).len() == findings.len(),
{
    law_report_keeps_findings(findings);
    broadcast use vstd::seq_lib::group_to_multiset_ensures;

    assert(by_rule(findings).to_multiset().count(f) == findings.to_multiset().count(f));
    assert(by_rule(findings).to_multiset().len() == findings.to_multiset().len());
}

/// The report that a finding in a file comes from.
proof fn lemma_file_finding_source(
    cfg: Config,
    cwd: Seq<Step>,
    t: Target,
    doc: Document,
    tokens: Counts,
    existing: Seq<Seq<Step>>,
    k: int,
) -> (i: int)
    requires
        0 <= k < file_findings(cfg, cwd, t, doc, tokens, existing).len(),
    ensures
        0 <= i < file_reports(cfg, cwd, t, doc, tokens, existing).len(),
        enabled(cfg)(file_reports(cfg, cwd, t, doc, tokens, existing)[i]),
        file_findings(cfg, cwd, t, doc, tokens, existing)[k] == finding_in(cfg, t.path@)(
            file_reports(cfg, cwd, t, doc, tokens, existing)[i],
        ),
{
    let reports = file_reports(cfg, cwd, t, doc, tokens, existing);
    let made = findings_of(cfg, t.path@, reports);
    let out = file_findings(cfg, cwd, t, doc, tokens, existing);
    lemma_ordered_same(made, out[k]);
    assert(out.contains(out[k]));
    let m = choose|m: int| 0 <= m < made.len() && made[m] == out[k];
    lemma_finding_source(cfg, t.path@, reports, m)
}

/// A rule is reported where something is said of it and it is not switched off.
proof fn lemma_reported(cfg: Config, path: Seq<char>, reports: Seq<Report>, rule: Seq<char>)
    ensures
        reported(by_rule(findings_of(cfg, path, reports)), rule) <==> says(reports, rule) && !texts(
            cfg.disabled@,
        ).contains(rule),
{
    let made = findings_of(cfg, path, reports);
    let out = by_rule(made);
    if reported(out, rule) {
        let k = choose|k: int| 0 <= k < out.len() && (#[trigger] out[k]).rule == rule;
        lemma_ordered_same(made, out[k]);
        assert(out.contains(out[k]));
        let m = choose|m: int| 0 <= m < made.len() && made[m] == out[k];
        let i = lemma_finding_source(cfg, path, reports, m);
        assert(reports[i].rule == rule);
    }
    if says(reports, rule) && !texts(cfg.disabled@).contains(rule) {
        let i = choose|i: int| 0 <= i < reports.len() && (#[trigger] reports[i]).rule == rule;
        let m = lemma_report_made(cfg, path, reports, i);
        lemma_ordered_same(made, made[m]);
        assert(made.contains(made[m]));
        let k = choose|k: int| 0 <= k < out.len() && out[k] == made[m];
        assert(out[k].rule == rule);
    }
}

/// A rule that is switched off is never reported.
pub proof fn law_disabled_rules_are_silent(
    cfg: Config,
    cwd: Seq<Step>,
    t: Target,
    doc: Document,
    tokens: Counts,
    existing: Seq<Seq<Step>>,
    rule: Seq<char>,
)
    requires
        texts(cfg.disabled@).contains(rule),
    ensures
        !reported(file_findings(cfg, cwd, t, doc, tokens, existing), rule),
{
    lemma_reported(cfg, t.path@, file_reports(cfg, cwd, t, doc, tokens, existing), rule);
}

/// Every finding names the file that was linted.
pub proof fn law_findings_name_the_file(
    cfg: Config,
    cwd: Seq<Step>,
    t: Target,
    doc: Document,
    tokens: Counts,
    existing: Seq<Seq<Step>>,
)
    ensures
        forall|k: int|
            0 <= k < file_findings(cfg, cwd, t, doc, tokens, existing).len() ==> (
            #[trigger] file_findings(cfg, cwd, t, doc, tokens, existing)[k]).file == t.path@,
{
    let out = file_findings(cfg, cwd, t, doc, tokens, existing);
    assert forall|k: int| 0 <= k < out.len() implies (#[trigger] out[k]).file == t.path@ by {
        let i = lemma_file_finding_source(cfg, cwd, t, doc, tokens, existing, k);
    }
}

/// Whether the front matter of a skill was read.
pub open spec fn skill_read(t: Target, doc: Document) -> bool {
    t.kind == Kind::Skill && doc.err is None && doc.fm.present
}

/// Whether the front matter could not be read, for this reason.
pub open spec fn fails(doc: Document, kind: ErrKind) -> bool {
    doc.err matches Some(err) && err.kind == kind
}

/// Whether a file breaks a rule: what each rule checks.
pub open spec fn breaks(
    cfg: Config,
    cwd: Seq<Step>,
    t: Target,
    doc: Document,
    tokens: Counts,
    existing: Seq<Seq<Step>>,
    rule: Seq<char>,
) -> bool {
    let fm = doc.fm;
    let skill = t.kind == Kind::Skill;
    let read = skill_read(t, doc);
    let name = declared(fm, "name"@);
    let description = declared(fm, "description"@);
    let dir = directory_name(cwd, t.path@);
    let references = file_references(cwd, t, doc);
    ||| rule == RULE_FRONTMATTER_MISSING@ && skill && doc.err is None && !fm.present
    ||| rule == RULE_FRONTMATTER_NOT_FIRST@ && skill && fails(doc, ErrKind::NotFirst)
    ||| rule == RULE_FRONTMATTER_UNTERMINATED@ && fails(doc, ErrKind::Unterminated)
    ||| rule == RULE_FRONTMATTER_INVALID@ && skill && fails(doc, ErrKind::Invalid)
    ||| rule == RULE_FRONTMATTER_UNKNOWN_KEY@ && read && exists|i: int|
        0 <= i < fm.fields@.len() && !known_key((#[trigger] fm.fields@[i]).key@)
    ||| rule == RULE_NAME_REQUIRED@ && read && name is None
    ||| rule == RULE_NAME_FORMAT@ && read && name is Some && !name_format(name->0)
    ||| rule == RULE_NAME_LENGTH@ && read && name is Some && name->0.len() > MAX_NAME_CHARS
    ||| rule == RULE_NAME_DIR_MISMATCH@ && read && name is Some && dir is Some && dir != name
    ||| rule == RULE_DESCRIPTION_REQUIRED@ && read && description is None
    ||| rule == RULE_DESCRIPTION_LENGTH@ && read && description is Some && description->0.len()
        > MAX_DESCRIPTION_CHARS
    ||| rule == RULE_ALLOWED_TOOLS_TYPE@ && read && fm.field("allowed-tools"@) is Some
        && !fm.lists_strings("allowed-tools"@)
    ||| rule == RULE_METADATA_TYPE@ && read && fm.field("metadata"@) is Some && !(fm.field(
        "metadata"@,
    )->0.value is Mapping)
    ||| rule == RULE_TOKENS_CONTENT@ && over_budget(tokens.content, cfg.body_budget(t.kind))
    ||| rule == RULE_TOKENS_NAME@ && read && name is Some && over_budget(
        tokens.name,
        cfg.max_skill_name_tokens,
    )
    ||| rule == RULE_TOKENS_DESCRIPTION@ && read && description is Some && over_budget(
        tokens.description,
        cfg.max_skill_description_tokens,
    )
    ||| rule == RULE_FILE_REFERENCE_MISSING@ && exists|i: int|
        0 <= i < references.len() && !existing.contains((#[trigger] references[i]).resolved)
}

proof fn lemma_says_keys(fm: Frontmatter, n: nat, rule: Seq<char>)
    requires
        n <= fm.fields@.len(),
    ensures
        says(keys_reports(fm, n), rule) <==> rule == RULE_FRONTMATTER_UNKNOWN_KEY@ && exists|i: int|
            0 <= i < n && !known_key((#[trigger] fm.fields@[i]).key@),
    decreases n,
{
    if n > 0 {
        let m = (n - 1) as nat;
        lemma_says_keys(fm, m, rule);
        lemma_says_add(keys_reports(fm, m), key_reports(fm, fm.fields@[n - 1].key@), rule);
        let key = fm.fields@[n - 1].key@;
        assert(says(key_reports(fm, key), rule) <==> !known_key(key) && rule
            == RULE_FRONTMATTER_UNKNOWN_KEY@) by {
            if !known_key(key) {
                assert(key_reports(fm, key)[0].rule == RULE_FRONTMATTER_UNKNOWN_KEY@);
            }
        }
    }
}

proof fn lemma_says_budget(
    budget_rule: Seq<char>,
    line: nat,
    part: Seq<char>,
    count: usize,
    budget: i64,
    rule: Seq<char>,
)
    ensures
        says(budget_reports(budget_rule, line, part, count, budget), rule) <==> rule == budget_rule
            && over_budget(count, budget),
{
    let reports = budget_reports(budget_rule, line, part, count, budget);
    if over_budget(count, budget) {
        assert(reports[0].rule == budget_rule);
    }
}

proof fn lemma_says_name(
    cfg: Config,
    dir: Option<Seq<char>>,
    fm: Frontmatter,
    tokens: usize,
    rule: Seq<char>,
)
    ensures
        ({
            let name = declared(fm, "name"@);
            says(name_reports(cfg, dir, fm, tokens), rule) <==> {
                ||| rule == RULE_NAME_REQUIRED@ && name is None
                ||| rule == RULE_NAME_FORMAT@ && name is Some && !name_format(name->0)
                ||| rule == RULE_NAME_LENGTH@ && name is Some && name->0.len() > MAX_NAME_CHARS
                ||| rule == RULE_NAME_DIR_MISMATCH@ && name is Some && dir is Some && dir != name
                ||| rule == RULE_TOKENS_NAME@ && name is Some && over_budget(
                    tokens,
                    cfg.max_skill_name_tokens,
                )
            }
        }),
{
    let reports = name_reports(cfg, dir, fm, tokens);
    match declared(fm, "name"@) {
        None => {
            assert(reports[0].rule == RULE_NAME_REQUIRED@);
        },
        Some(name) => {
            let line = fm.line_of("name"@);
            let budget = budget_reports(
                RULE_TOKENS_NAME@,
                line,
                "name"@,
                tokens,
                cfg.max_skill_name_tokens,
            );
            lemma_says_budget(
                RULE_TOKENS_NAME@,
                line,
                "name"@,
                tokens,
                cfg.max_skill_name_tokens,
                rule,
            );
            let rest = reports.take(reports.len() - budget.len());
            assert(reports =~= rest + budget);
            lemma_says_add(rest, budget, rule);
            assert(says(rest, rule) <==> {
                ||| rule == RULE_NAME_FORMAT@ && !name_format(name)
                ||| rule == RULE_NAME_LENGTH@ && name.len() > MAX_NAME_CHARS
                ||| rule == RULE_NAME_DIR_MISMATCH@ && dir is Some && dir != Some(name)
            }) by {
                let format: int = if !name_format(name) {
                    1
                } else {
                    0
                };
                let length: int = if name.len() > MAX_NAME_CHARS {
                    1
                } else {
                    0
                };
                if !name_format(name) {
                    assert(rest[0].rule == RULE_NAME_FORMAT@);
                }
                if name.len() > MAX_NAME_CHARS {
                    assert(rest[format].rule == RULE_NAME_LENGTH@);
                }
                if dir is Some && dir != Some(name) {
                    assert(rest[format + length].rule == RULE_NAME_DIR_MISMATCH@);
                }
            }
        },
    }
}

proof fn lemma_says_description(cfg: Config, fm: Frontmatter, tokens: usize, rule: Seq<char>)
    ensures
        ({
            let description = declared(fm, "description"@);
            says(description_reports(cfg, fm, tokens), rule) <==> {
                ||| rule == RULE_DESCRIPTION_REQUIRED@ && description is None
                ||| rule == RULE_DESCRIPTION_LENGTH@ && description is Some && description->0.len()
                    > MAX_DESCRIPTION_CHARS
                ||| rule == RULE_TOKENS_DESCRIPTION@ && description is Some && over_budget(
                    tokens,
                    cfg.max_skill_description_tokens,
                )
            }
        }),
{
    let reports = description_reports(cfg, fm, tokens);
    match declared(fm, "description"@) {
        None => {
            assert(reports[0].rule == RULE_DESCRIPTION_REQUIRED@);
        },
        Some(description) => {
            let line = fm.line_of("description"@);
            let budget = budget_reports(
                RULE_TOKENS_DESCRIPTION@,
                line,
                "description"@,
                tokens,
                cfg.max_skill_description_tokens,
            );
            lemma_says_budget(
                RULE_TOKENS_DESCRIPTION@,
                line,
                "description"@,
                tokens,
                cfg.max_skill_description_tokens,
                rule,
            );
            let rest = reports.take(reports.len() - budget.len());
            assert(reports =~= rest + budget);
            lemma_says_add(rest, budget, rule);
            if description.len() > MAX_DESCRIPTION_CHARS {
                assert(rest[0].rule == RULE_DESCRIPTION_LENGTH@);
            }
        },
    }
}

proof fn lemma_says_missing(
    references: Seq<ReferenceView>,
    existing: Seq<Seq<Step>>,
    rule: Seq<char>,
)
    ensures
        says(missing_reports(references, existing), rule) <==> rule == RULE_FILE_REFERENCE_MISSING@
            && exists|i: int|
            0 <= i < references.len() && !existing.contains((#[trigger] references[i]).resolved),
    decreases references.len(),
{
    if references.len() > 0 {
        let front = references.drop_last();
        let last = references.last();
        lemma_says_missing(front, existing, rule);
        lemma_says_add(missing_reports(front, existing), reference_reports(last, existing), rule);
        if !existing.contains(last.resolved) {
            assert(reference_reports(last, existing)[0].rule == RULE_FILE_REFERENCE_MISSING@);
            assert(references[references.len() - 1] == last);
        }
        assert forall|i: int| 0 <= i < front.len() implies front[i] == #[trigger] references[i] by {
        }
        if exists|i: int|
            0 <= i < front.len() && !existing.contains((#[trigger] front[i]).resolved) {
            let i = choose|i: int|
                0 <= i < front.len() && !existing.contains((#[trigger] front[i]).resolved);
            assert(!existing.contains(references[i].resolved));
        }
        if exists|i: int|
            0 <= i < references.len() && !existing.contains((#[trigger] references[i]).resolved) {
            let i = choose|i: int|
                0 <= i < references.len() && !existing.contains(
                    (#[trigger] references[i]).resolved,
                );
            if i < front.len() {
                assert(!existing.contains(front[i].resolved));
            }
        }
    }
}

proof fn lemma_says_skill(
    cfg: Config,
    cwd: Seq<Step>,
    t: Target,
    doc: Document,
    tokens: Counts,
    existing: Seq<Seq<Step>>,
    rule: Seq<char>,
)
    requires
        skill_read(t, doc),
    ensures
        says(front_reports(cfg, cwd, t, doc, tokens), rule) ==> breaks(
            cfg,
            cwd,
            t,
            doc,
            tokens,
            existing,
            rule,
        ),
        breaks(cfg, cwd, t, doc, tokens, existing, rule) ==> {
            ||| says(front_reports(cfg, cwd, t, doc, tokens), rule)
            ||| rule == RULE_TOKENS_CONTENT@ && over_budget(
                tokens.content,
                cfg.body_budget(t.kind),
            )
            ||| says(missing_reports(file_references(cwd, t, doc), existing), rule)
        },
{
    let fm = doc.fm;
    let dir = directory_name(cwd, t.path@);
    let keys = keys_reports(fm, fm.fields@.len());
    let name = name_reports(cfg, dir, fm, tokens.name);
    let description = description_reports(cfg, fm, tokens.description);
    let tools = allowed_tools_reports(fm);
    let metadata = metadata_reports(fm);
    lemma_says_keys(fm, fm.fields@.len(), rule);
    lemma_says_name(cfg, dir, fm, tokens.name, rule);
    lemma_says_description(cfg, fm, tokens.description, rule);
    lemma_says_add(keys, name, rule);
    lemma_says_add(keys + name, description, rule);
    lemma_says_add(keys + name + description, tools, rule);
    lemma_says_add(keys + name + description + tools, metadata, rule);
    lemma_says_missing(file_references(cwd, t, doc), existing, rule);
    if tools.len() > 0 {
        assert(tools[0].rule == RULE_ALLOWED_TOOLS_TYPE@);
    }
    if metadata.len() > 0 {
        assert(metadata[0].rule == RULE_METADATA_TYPE@);
    }
}

/// What is reported: a rule is reported exactly where it is not switched off
/// and the file breaks it.
pub proof fn law_broken_rules_are_reported(
    cfg: Config,
    cwd: Seq<Step>,
    t: Target,
    doc: Document,
    tokens: Counts,
    existing: Seq<Seq<Step>>,
    rule: Seq<char>,
)
    ensures
        reported(file_findings(cfg, cwd, t, doc, tokens, existing), rule) <==> breaks(
            cfg,
            cwd,
            t,
            doc,
            tokens,
            existing,
            rule,
        ) && !texts(cfg.disabled@).contains(rule),
{
    let front = front_reports(cfg, cwd, t, doc, tokens);
    let references = file_references(cwd, t, doc);
    let missing = missing_reports(references, existing);
    let limit = cfg.body_budget(t.kind);
    let budget = budget_reports(RULE_TOKENS_CONTENT@, 0, "content"@, tokens.content, limit);
    lemma_reported(cfg, t.path@, file_reports(cfg, cwd, t, doc, tokens, existing), rule);
    lemma_says_add(front, missing, rule);
    lemma_says_add(front + missing, budget, rule);
    lemma_says_missing(references, existing, rule);
    lemma_says_budget(RULE_TOKENS_CONTENT@, 0, "content"@, tokens.content, limit, rule);
    if skill_read(t, doc) {
        lemma_says_skill(cfg, cwd, t, doc, tokens, existing, rule);
    } else if front.len() > 0 {
        assert(front.len() == 1);
        lemma_says_one(front[0], rule);
        assert(front =~= seq![front[0]]);
    }
}

/// The rules that only warn.
pub open spec fn warns(rule: Seq<char>) -> bool {
    rule == RULE_FRONTMATTER_UNKNOWN_KEY@ || rule == RULE_NAME_DIR_MISMATCH@
}

/// Whether a report has the severity of its rule.
spec fn fit_severity() -> spec_fn(Report) -> bool {
    |r: Report| r.severity == Severity::Warning <==> warns(r.rule)
}

proof fn lemma_each_add(a: Seq<Report>, b: Seq<Report>, p: spec_fn(Report) -> bool)
    requires
        each(a, p),
        each(b, p),
    ensures
        each(a + b, p),
{
    let all = a + b;
    assert forall|i: int| 0 <= i < all.len() implies p(#[trigger] all[i]) by {
        if i < a.len() {
            assert(all[i] == a[i]);
        } else {
            assert(all[i] == b[i - a.len()]);
        }
    }
}

proof fn lemma_keys_severity(fm: Frontmatter, n: nat)
    ensures
        each(keys_reports(fm, n), fit_severity()),
    decreases n,
{
    if n > 0 {
        lemma_keys_severity(fm, (n - 1) as nat);
        lemma_each_add(
            keys_reports(fm, (n - 1) as nat),
            key_reports(fm, fm.fields@[n - 1].key@),
            fit_severity(),
        );
    }
}

proof fn lemma_missing_severity(references: Seq<ReferenceView>, existing: Seq<Seq<Step>>)
    ensures
        each(missing_reports(references, existing), fit_severity()),
    decreases references.len(),
{
    if references.len() > 0 {
        law_rules_are_distinct();
        lemma_missing_severity(references.drop_last(), existing);
        lemma_each_add(
            missing_reports(references.drop_last(), existing),
            reference_reports(references.last(), existing),
            fit_severity(),
        );
    }
}

proof fn lemma_reports_severity(
    cfg: Config,
    cwd: Seq<Step>,
    t: Target,
    doc: Document,
    tokens: Counts,
    existing: Seq<Seq<Step>>,
)
    ensures
        each(file_reports(cfg, cwd, t, doc, tokens, existing), fit_severity()),
{
    law_rules_are_distinct();
    let p = fit_severity();
    let front = front_reports(cfg, cwd, t, doc, tokens);
    let missing = missing_reports(file_references(cwd, t, doc), existing);
    let budget = budget_reports(
        RULE_TOKENS_CONTENT@,
        0,
        "content"@,
        tokens.content,
        cfg.body_budget(t.kind),
    );
    lemma_missing_severity(file_references(cwd, t, doc), existing);
    if skill_read(t, doc) {
        let fm = doc.fm;
        let keys = keys_reports(fm, fm.fields@.len());
        let name = name_reports(cfg, directory_name(cwd, t.path@), fm, tokens.name);
        let description = description_reports(cfg, fm, tokens.description);
        let tools = allowed_tools_reports(fm);
        lemma_keys_severity(fm, fm.fields@.len());
        lemma_each_add(keys, name, p);
        lemma_each_add(keys + name, description, p);
        lemma_each_add(keys + name + description, tools, p);
        lemma_each_add(keys + name + description + tools, metadata_reports(fm), p);
    }
    lemma_each_add(front, missing, p);
    lemma_each_add(front + missing, budget, p);
}

/// Unknown keys and a name that does not match its directory are warnings, and
/// everything else is an error. A strict run knows only errors.
pub proof fn law_severities(
    cfg: Config,
    cwd: Seq<Step>,
    t: Target,
    doc: Document,
    tokens: Counts,
    existing: Seq<Seq<Step>>,
)
    ensures
        forall|k: int|
            0 <= k < file_findings(cfg, cwd, t, doc, tokens, existing).len() ==> {
                let f = #[trigger] file_findings(cfg, cwd, t, doc, tokens, existing)[k];
                f.severity == Severity::Warning <==> !cfg.strict && warns(f.rule)
            },
{
    let out = file_findings(cfg, cwd, t, doc, tokens, existing);
    assert forall|k: int| 0 <= k < out.len() implies {
        let f = #[trigger] out[k];
        f.severity == Severity::Warning <==> !cfg.strict && warns(f.rule)
    } by {
        let i = lemma_file_finding_source(cfg, cwd, t, doc, tokens, existing, k);
        lemma_reports_severity(cfg, cwd, t, doc, tokens, existing);
        assert(fit_severity()(file_reports(cfg, cwd, t, doc, tokens, existing)[i]));
    }
}

/// A budget of zero, or less, switches its check off.
pub proof fn law_zero_budget_checks_nothing(
    cfg: Config,
    cwd: Seq<Step>,
    t: Target,
    doc: Document,
    tokens: Counts,
    existing: Seq<Seq<Step>>,
)
    ensures
        cfg.body_budget(t.kind) <= 0 ==> !reported(
            file_findings(cfg, cwd, t, doc, tokens, existing),
            RULE_TOKENS_CONTENT@,
        ),
        cfg.max_skill_name_tokens <= 0 ==> !reported(
            file_findings(cfg, cwd, t, doc, tokens, existing),
            RULE_TOKENS_NAME@,
        ),
        cfg.max_skill_description_tokens <= 0 ==> !reported(
            file_findings(cfg, cwd, t, doc, tokens, existing),
            RULE_TOKENS_DESCRIPTION@,
        ),
{
    law_rules_are_distinct();
    law_broken_rules_are_reported(cfg, cwd, t, doc, tokens, existing, RULE_TOKENS_CONTENT@);
    law_broken_rules_are_reported(cfg, cwd, t, doc, tokens, existing, RULE_TOKENS_NAME@);
    law_broken_rules_are_reported(cfg, cwd, t, doc, tokens, existing, RULE_TOKENS_DESCRIPTION@);
}

/// A file sees only the budgets of its own kind: configurations that switch off
/// the same rules and agree on `strict` and on those budgets find the same,
/// whatever budgets they give the other kind.
pub proof fn law_other_budgets_do_not_show(
    a: Config,
    b: Config,
    cwd: Seq<Step>,
    t: Target,
    doc: Document,
    tokens: Counts,
    existing: Seq<Seq<Step>>,
)
    requires
        forall|id: Seq<char>|
            #[trigger] texts(a.disabled@).contains(id) <==> texts(b.disabled@).contains(id),
        a.strict == b.strict,
        a.body_budget(t.kind) == b.body_budget(t.kind),
        t.kind == Kind::Skill ==> a.max_skill_name_tokens == b.max_skill_name_tokens
            && a.max_skill_description_tokens == b.max_skill_description_tokens,
    ensures
        file_findings(a, cwd, t, doc, tokens, existing) == file_findings(
            b,
            cwd,
            t,
            doc,
            tokens,
            existing,
        ),
{
    assert(file_reports(a, cwd, t, doc, tokens, existing) == file_reports(
        b,
        cwd,
        t,
        doc,
        tokens,
        existing,
    ));
    assert(enabled(a) =~= enabled(b));
    assert(finding_in(a, t.path@) =~= finding_in(b, t.path@));
}

/// The front matter of an `AGENTS.md` is not validated: such a file is only
/// ever told of front matter that never ends, of dangling references and of its
/// token budget.
pub proof fn law_agents_front_matter_is_free(
    cfg: Config,
    cwd: Seq<Step>,
    t: Target,
    doc: Document,
    tokens: Counts,
    existing: Seq<Seq<Step>>,
    rule: Seq<char>,
)
    requires
        t.kind == Kind::Agents,
        reported(file_findings(cfg, cwd, t, doc, tokens, existing), rule),
    ensures
        rule == RULE_FRONTMATTER_UNTERMINATED@ || rule == RULE_FILE_REFERENCE_MISSING@ || rule
            == RULE_TOKENS_CONTENT@,
{
    law_broken_rules_are_reported(cfg, cwd, t, doc, tokens, existing, rule);
}

/// A skill whose front matter is missing or cannot be read is told so once, and
/// nothing is said of what the front matter would hold.
pub proof fn law_unread_skill_is_told_once(
    cfg: Config,
    cwd: Seq<Step>,
    t: Target,
    doc: Document,
    tokens: Counts,
)
    requires
        t.kind == Kind::Skill,
        !skill_read(t, doc),
    ensures
        front_reports(cfg, cwd, t, doc, tokens).len() == 1,
        front_reports(cfg, cwd, t, doc, tokens)[0].rule == match doc.err {
            Some(err) => error_rule(err.kind),
            None => RULE_FRONTMATTER_MISSING@,
        },
        front_reports(cfg, cwd, t, doc, tokens)[0].severity == Severity::Error,
{
}

/// A file that breaks no rule has no findings.
pub proof fn law_clean_file_has_no_findings(
    cfg: Config,
    cwd: Seq<Step>,
    t: Target,
    doc: Document,
    tokens: Counts,
    existing: Seq<Seq<Step>>,
)
    requires
        forall|rule: Seq<char>| !#[trigger] breaks(cfg, cwd, t, doc, tokens, existing, rule),
    ensures
        file_findings(cfg, cwd, t, doc, tokens, existing).len() == 0,
{
    let out = file_findings(cfg, cwd, t, doc, tokens, existing);
    if out.len() > 0 {
        let rule = out[0].rule;
        assert(reported(out, rule));
        law_broken_rules_are_reported(cfg, cwd, t, doc, tokens, existing, rule);
        assert(!breaks(cfg, cwd, t, doc, tokens, existing, rule));
    }
}

/// Every rule that is reported is one of the rules.
pub proof fn law_reported_rules_are_known(
    cfg: Config,
    cwd: Seq<Step>,
    t: Target,
    doc: Document,
    tokens: Counts,
    existing: Seq<Seq<Step>>,
    rule: Seq<char>,
)
    requires
        reported(file_findings(cfg, cwd, t, doc, tokens, existing), rule),
    ensures
        rank(rule) < 17,
{
    law_rules_are_distinct();
    law_broken_rules_are_reported(cfg, cwd, t, doc, tokens, existing, rule);
}

/// A skill file that sits in the working directory itself is named after the
/// project, so its name is never held against the directory.
pub proof fn law_loose_skill_may_have_any_name(
    cfg: Config,
    cwd: Seq<Step>,
    t: Target,
    doc: Document,
    tokens: Counts,
    existing: Seq<Seq<Step>>,
)
    requires
        parent_of(resolved(cwd, path_steps(t.path@))) == Some(cleaned(cwd)),
    ensures
        !reported(file_findings(cfg, cwd, t, doc, tokens, existing), RULE_NAME_DIR_MISMATCH@),
{
    law_rules_are_distinct();
    law_broken_rules_are_reported(cfg, cwd, t, doc, tokens, existing, RULE_NAME_DIR_MISMATCH@);
}

proof fn lemma_line_references(scope: Scope, line: nat, targets: Seq<Seq<char>>)
    ensures
        forall|i: int|
            0 <= i < scope.line_references(line, targets).len() ==> {
                let r = #[trigger] scope.line_references(line, targets)[i];
                &&& r.line == line
                &&& scope.root.is_prefix_of(r.resolved)
                &&& r.resolved == scope.place(r.target)
            },
    decreases targets.len(),
{
    if targets.len() > 0 {
        lemma_line_references(scope, line, targets.drop_last());
        let front = scope.line_references(line, targets.drop_last());
        let all = scope.line_references(line, targets);
        assert forall|i: int| 0 <= i < all.len() implies {
            let r = #[trigger] all[i];
            &&& r.line == line
            &&& scope.root.is_prefix_of(r.resolved)
            &&& r.resolved == scope.place(r.target)
        } by {
            if i < front.len() {
                assert(all[i] == front[i]);
            }
        }
    }
}

proof fn lemma_references(scope: Scope, lines: Seq<Seq<char>>)
    ensures
        forall|i: int|
            0 <= i < scope.references(lines).len() ==> {
                let r = #[trigger] scope.references(lines)[i];
                &&& scope.offset < r.line <= scope.offset + lines.len()
                &&& scope.root.is_prefix_of(r.resolved)
                &&& r.resolved == scope.place(r.target)
            },
    decreases lines.len(),
{
    if lines.len() > 0 {
        lemma_references(scope, lines.drop_last());
        let targets = line_targets(lines.last());
        let number = scope.offset + lines.len();
        lemma_line_references(scope, number, targets);
        let front = scope.references(lines.drop_last());
        let last = scope.line_references(number, targets);
        let all = scope.references(lines);
        assert forall|i: int| 0 <= i < all.len() implies {
            let r = #[trigger] all[i];
            &&& scope.offset < r.line <= scope.offset + lines.len()
            &&& scope.root.is_prefix_of(r.resolved)
            &&& r.resolved == scope.place(r.target)
        } by {
            if i < front.len() {
                assert(all[i] == front[i]);
            } else {
                assert(all[i] == last[i - front.len()]);
            }
        }
    }
}

/// No file outside the linted tree is ever asked for: every reference resolves
/// to the tree's root or below it. And every reference stands on a line of the
/// body.
pub proof fn law_references_stay_in_the_tree(cwd: Seq<Step>, t: Target, doc: Document)
    ensures
        forall|i: int|
            0 <= i < file_references(cwd, t, doc).len() ==> {
                let r = #[trigger] file_references(cwd, t, doc)[i];
                &&& resolved(cwd, t.root@).is_prefix_of(r.resolved)
                &&& doc.fm.body_offset() < r.line <= doc.fm.body_offset() + doc.lines().len()
            },
{
    lemma_references(scope_of(cwd, t, doc.fm), doc.lines());
}

/// What exists outside the linted tree does not show: two runs that agree on
/// the files below the root find the same.
pub proof fn law_outside_files_do_not_show(
    cfg: Config,
    cwd: Seq<Step>,
    t: Target,
    doc: Document,
    tokens: Counts,
    a: Seq<Seq<Step>>,
    b: Seq<Seq<Step>>,
)
    requires
        forall|p: Seq<Step>|
            resolved(cwd, t.root@).is_prefix_of(p) ==> (#[trigger] a.contains(p) <==> b.contains(p)),
    ensures
        file_findings(cfg, cwd, t, doc, tokens, a) == file_findings(cfg, cwd, t, doc, tokens, b),
{
    law_references_stay_in_the_tree(cwd, t, doc);
    lemma_missing_agrees(file_references(cwd, t, doc), a, b);
}

proof fn lemma_missing_agrees(
    references: Seq<ReferenceView>,
    a: Seq<Seq<Step>>,
    b: Seq<Seq<Step>>,
)
    requires
        forall|i: int|
            0 <= i < references.len() ==> (a.contains((#[trigger] references[i]).resolved)
                <==> b.contains(references[i].resolved)),
    ensures
        missing_reports(references, a) == missing_reports(references, b),
    decreases references.len(),
{
    if references.len() > 0 {
        let front = references.drop_last();
        assert forall|i: int| 0 <= i < front.len() implies (a.contains(
            (#[trigger] front[i]).resolved,
        ) <==> b.contains(front[i].resolved)) by {
            assert(front[i] == references[i]);
        }
        lemma_missing_agrees(front, a, b);
        assert(references.last() == references[references.len() - 1]);
    }
}

proof fn lemma_missing_reported(
    references: Seq<ReferenceView>,
    existing: Seq<Seq<Step>>,
    i: int,
) -> (k: int)
    requires
        0 <= i < references.len(),
        !existing.contains(references[i].resolved),
    ensures
        0 <= k < missing_reports(references, existing).len(),
        seq![missing_reports(references, existing)[k]] == reference_reports(
            references[i],
            existing,
        ),
    decreases references.len(),
{
    let front = references.drop_last();
    let before = missing_reports(front, existing);
    if i == references.len() - 1 {
        assert(seq![missing_reports(references, existing)[before.len() as int]]
            =~= reference_reports(references[i], existing));
        before.len() as int
    } else {
        assert(front[i] == references[i]);
        let k = lemma_missing_reported(front, existing, i);
        assert(missing_reports(references, existing)[k] == before[k]);
        k
    }
}

/// Every reference whose file does not exist is reported as an error on its own
/// line, unless the rule is switched off.
pub proof fn law_missing_references_are_reported(
    cfg: Config,
    cwd: Seq<Step>,
    t: Target,
    doc: Document,
    tokens: Counts,
    existing: Seq<Seq<Step>>,
    i: int,
)
    requires
        0 <= i < file_references(cwd, t, doc).len(),
        !existing.contains(file_references(cwd, t, doc)[i].resolved),
        !texts(cfg.disabled@).contains(RULE_FILE_REFERENCE_MISSING@),
    ensures
        file_findings(cfg, cwd, t, doc, tokens, existing).contains(
            FindingView {
                file: t.path@,
                line: file_references(cwd, t, doc)[i].line,
                rule: RULE_FILE_REFERENCE_MISSING@,
                severity: Severity::Error,
                message: "referenced file "@ + debug_quoted(
                    file_references(cwd, t, doc)[i].target,
                ) + " does not exist"@,
            },
        ),
{
    let references = file_references(cwd, t, doc);
    let front = front_reports(cfg, cwd, t, doc, tokens);
    let missing = missing_reports(references, existing);
    let reports = file_reports(cfg, cwd, t, doc, tokens, existing);
    let k = lemma_missing_reported(references, existing, i);
    let made = findings_of(cfg, t.path@, reports);
    assert(seq![missing[k]][0] == reference_reports(references[i], existing)[0]);
    assert(reports[front.len() + k] == missing[k]);
    let m = lemma_report_made(cfg, t.path@, reports, front.len() + k);
    assert(made.contains(made[m]));
    lemma_ordered_same(made, made[m]);
}

/// The finding with its severity raised to an error.
pub open spec fn as_error(f: FindingView) -> FindingView {
    FindingView { severity: Severity::Error, ..f }
}

proof fn lemma_ranked_as_error(findings: Seq<FindingView>, n: nat)
    ensures
        ranked(findings.map_values(|f: FindingView| as_error(f)), n) == ranked(
            findings,
            n,
        ).map_values(|f: FindingView| as_error(f)),
    decreases n,
{
    let raise = |f: FindingView| as_error(f);
    if n > 0 {
        let k = (n - 1) as nat;
        lemma_ranked_as_error(findings, k);
        lemma_filter_as_error(findings, k);
        assert(ranked(findings.map_values(raise), n) =~= ranked(findings, n).map_values(raise));
    }
}

proof fn lemma_filter_as_error(findings: Seq<FindingView>, n: nat)
    ensures
        findings.map_values(|f: FindingView| as_error(f)).filter(of_rank(n)) == findings.filter(
            of_rank(n),
        ).map_values(|f: FindingView| as_error(f)),
    decreases findings.len(),
{
    reveal(Seq::filter);
    let raise = |f: FindingView| as_error(f);
    if findings.len() > 0 {
        lemma_filter_as_error(findings.drop_last(), n);
        assert(findings.map_values(raise).drop_last() =~= findings.drop_last().map_values(raise));
    }
    assert(findings.map_values(raise).filter(of_rank(n)) =~= findings.filter(of_rank(n)).map_values(
        raise,
    ));
}

/// A strict run finds what a lenient one finds, with every warning an error.
pub proof fn law_strict_only_raises_severity(
    lenient: Config,
    strict: Config,
    cwd: Seq<Step>,
    t: Target,
    doc: Document,
    tokens: Counts,
    existing: Seq<Seq<Step>>,
)
    requires
        strict == (Config { strict: true, ..lenient }),
    ensures
        file_findings(strict, cwd, t, doc, tokens, existing) == file_findings(
            lenient,
            cwd,
            t,
            doc,
            tokens,
            existing,
        ).map_values(|f: FindingView| as_error(f)),
{
    let raise = |f: FindingView| as_error(f);
    let reports = file_reports(lenient, cwd, t, doc, tokens, existing);
    let made = findings_of(lenient, t.path@, reports);
    assert(file_reports(strict, cwd, t, doc, tokens, existing) == reports);
    assert(enabled(strict) =~= enabled(lenient));
    assert(findings_of(strict, t.path@, reports) =~= made.map_values(raise));
    lemma_ranked_as_error(made, 18);
}

/// A strict run has no warnings: every finding counts as an error.
pub proof fn law_strict_counts_errors_only(
    cfg: Config,
    cwd: Seq<Step>,
    t: Target,
    doc: Document,
    tokens: Counts,
    existing: Seq<Seq<Step>>,
)
    requires
        cfg.strict,
    ensures
        severity_count(file_findings(cfg, cwd, t, doc, tokens, existing), Severity::Warning) == 0,
        severity_count(file_findings(cfg, cwd, t, doc, tokens, existing), Severity::Error)
            == file_findings(cfg, cwd, t, doc, tokens, existing).len(),
{
    let out = file_findings(cfg, cwd, t, doc, tokens, existing);
    let warning = |f: FindingView| f.severity == Severity::Warning;
    law_severities(cfg, cwd, t, doc, tokens, existing);
    law_errors_and_warnings(out);
    if out.filter(warning).len() > 0 {
        out.lemma_filter_pred(warning, 0);
        assert(out.filter(warning).contains(out.filter(warning)[0]));
        out.lemma_filter_contains_rev(warning, out.filter(warning)[0]);
    }
}

/// Whether a finding is of none of the rules.
pub open spec fn not_of(rules: Set<Seq<char>>) -> spec_fn(FindingView) -> bool {
    |f: FindingView| !rules.contains(f.rule)
}

proof fn lemma_filters_commute(
    findings: Seq<FindingView>,
    p: spec_fn(FindingView) -> bool,
    q: spec_fn(FindingView) -> bool,
)
    ensures
        findings.filter(p).filter(q) == findings.filter(q).filter(p),
    decreases findings.len(),
{
    reveal(Seq::filter);
    if findings.len() > 0 {
        let front = findings.drop_last();
        let last = findings.last();
        lemma_filters_commute(front, p, q);
        assert(front.filter(p).push(last).drop_last() =~= front.filter(p));
        assert(front.filter(q).push(last).drop_last() =~= front.filter(q));
    }
}

/// Ordering what passes is what passes of the ordered.
pub proof fn lemma_ranked_filters(findings: Seq<FindingView>, p: spec_fn(FindingView) -> bool, n: nat)
    ensures
        ranked(findings.filter(p), n) == ranked(findings, n).filter(p),
    decreases n,
{
    reveal(Seq::filter);
    if n > 0 {
        let k = (n - 1) as nat;
        lemma_ranked_filters(findings, p, k);
        lemma_filters_commute(findings, p, of_rank(k));
        Seq::filter_distributes_over_add(ranked(findings, k), findings.filter(of_rank(k)), p);
    }
}

proof fn lemma_disabling_filters(
    cfg: Config,
    without: Config,
    path: Seq<char>,
    reports: Seq<Report>,
    rules: Set<Seq<char>>,
)
    requires
        without.strict == cfg.strict,
        forall|id: Seq<char>|
            #[trigger] texts(without.disabled@).contains(id) <==> texts(cfg.disabled@).contains(id)
                || rules.contains(id),
    ensures
        findings_of(without, path, reports) == findings_of(cfg, path, reports).filter(not_of(rules)),
    decreases reports.len(),
{
    reveal(Seq::filter);
    if reports.len() == 0 {
        assert(reports =~= seq![]);
        lemma_findings_none(cfg, path);
        lemma_findings_none(without, path);
    } else {
        let front = reports.drop_last();
        let last = reports.last();
        assert(reports =~= front + seq![last]);
        lemma_disabling_filters(cfg, without, path, front, rules);
        lemma_findings_add(cfg, path, front, seq![last]);
        lemma_findings_add(without, path, front, seq![last]);
        lemma_findings_one(cfg, path, last);
        lemma_findings_one(without, path, last);
        Seq::filter_distributes_over_add(
            findings_of(cfg, path, front),
            findings_of(cfg, path, seq![last]),
            not_of(rules),
        );
        let made = finding_in(cfg, path)(last);
        assert(made == finding_in(without, path)(last));
        assert(seq![made].drop_last() =~= Seq::<FindingView>::empty());
        assert(seq![made].drop_last().filter(not_of(rules)) =~= Seq::<FindingView>::empty());
        assert(seq![made].filter(not_of(rules)) =~= if !rules.contains(made.rule) {
            seq![made]
        } else {
            Seq::empty()
        });
    }
}

/// Switching rules off, however many, takes their findings out and leaves all
/// others as they are.
pub proof fn law_disabling_removes_those_rules(
    cfg: Config,
    without: Config,
    cwd: Seq<Step>,
    t: Target,
    doc: Document,
    tokens: Counts,
    existing: Seq<Seq<Step>>,
    rules: Set<Seq<char>>,
)
    requires
        without == (Config { disabled: without.disabled, ..cfg }),
        forall|id: Seq<char>|
            #[trigger] texts(without.disabled@).contains(id) <==> texts(cfg.disabled@).contains(id)
                || rules.contains(id),
    ensures
        file_findings(without, cwd, t, doc, tokens, existing) == file_findings(
            cfg,
            cwd,
            t,
            doc,
            tokens,
            existing,
        ).filter(not_of(rules)),
{
    let reports = file_reports(cfg, cwd, t, doc, tokens, existing);
    assert(file_reports(without, cwd, t, doc, tokens, existing) == reports);
    lemma_disabling_filters(cfg, without, t.path@, reports, rules);
    lemma_ranked_filters(findings_of(cfg, t.path@, reports), not_of(rules), 18);
}

/// A code block holds no references: lines behind an opening fence that do not
/// close it add nothing to what the lines before them refer to.
pub proof fn law_code_blocks_hold_no_references(
    scope: Scope,
    before: Seq<Seq<char>>,
    open: (char, nat),
    lines: Seq<Seq<char>>,
)
    requires
        fence_after(before) == Some(open),
        forall|i: int| 0 <= i < lines.len() ==> !closes(open, #[trigger] lines[i]),
    ensures
        scope.references(before + lines) == scope.references(before),
    decreases lines.len(),
{
    if lines.len() == 0 {
        assert(before + lines =~= before);
    } else {
        let front = lines.drop_last();
        assert forall|i: int| 0 <= i < front.len() implies !closes(open, #[trigger] front[i]) by {
            assert(front[i] == lines[i]);
        }
        law_code_blocks_hold_no_references(scope, before, open, front);
        law_block_hides_lines(open, front, before);
        assert((before + lines).drop_last() =~= before + front);
        assert(scope.references(before + front) + Seq::<ReferenceView>::empty()
            =~= scope.references(before + front));
    }
}

} // verus!
