//! The rules, on whole files.
use ctxlint::config::{
    Config, DEFAULT_MAX_AGENTS_TOKENS, DEFAULT_MAX_SKILL_DESCRIPTION_TOKENS,
    DEFAULT_MAX_SKILL_NAME_TOKENS, DEFAULT_MAX_SKILL_TOKENS, MAX_DESCRIPTION_CHARS, MAX_NAME_CHARS,
};
use ctxlint::discover::{Kind, Target};
use ctxlint::finding::{Counts, FileResult, Finding, Severity};
use ctxlint::lint::Linter;
use ctxlint::parse::{Document, ErrKind, Error, Field, Frontmatter, Value};
use ctxlint::path::FilePath;
use ctxlint::rules::{
    RULE_ALLOWED_TOOLS_TYPE, RULE_DESCRIPTION_LENGTH, RULE_DESCRIPTION_REQUIRED,
    RULE_FILE_REFERENCE_MISSING, RULE_FRONTMATTER_INVALID, RULE_FRONTMATTER_MISSING,
    RULE_FRONTMATTER_NOT_FIRST, RULE_FRONTMATTER_UNKNOWN_KEY, RULE_FRONTMATTER_UNTERMINATED,
    RULE_METADATA_TYPE, RULE_NAME_DIR_MISMATCH, RULE_NAME_FORMAT, RULE_NAME_LENGTH,
    RULE_NAME_REQUIRED, RULE_TOKENS_CONTENT, RULE_TOKENS_DESCRIPTION, RULE_TOKENS_NAME,
};
use ctxlint::tokens::Counter;

/// Four bytes to a token, rounded up.
struct Quarters;

impl Counter for Quarters {
    fn count(&self, text: &str) -> usize {
        (text.len() + 3) / 4
    }
}

fn linter(cfg: Config) -> Linter<Quarters> {
    Linter::with_cwd(cfg, Quarters, FilePath::parse("/work"))
}

fn scalar(text: &str) -> Value {
    Value::Scalar(text.trim_matches('"').to_string())
}

/// Reads the flat front matter that the fixtures are written in: `key: value`
/// lines, with lists and mappings indented below their key.
fn fields(block: &[&str]) -> Result<Vec<Field>, Error> {
    let mut fields: Vec<Field> = Vec::new();
    for (i, line) in block.iter().enumerate() {
        let number = i + 2;
        let invalid = |msg: &str| Error {
            kind: ErrKind::Invalid,
            line: number,
            msg: msg.to_string(),
        };
        if line.starts_with("- ") {
            return Err(invalid("front matter must be a mapping"));
        }
        if let Some(item) = line.strip_prefix("  - ") {
            match fields.last_mut().map(|f| &mut f.value) {
                Some(Value::Strings(items)) => items.push(item.to_string()),
                Some(value @ Value::Other) => *value = Value::Strings(vec![item.to_string()]),
                _ => return Err(invalid("unexpected list item")),
            }
        } else if line.starts_with("  ") {
            match fields.last_mut().map(|f| &mut f.value) {
                Some(Value::Mapping) => {}
                Some(value @ Value::Other) => *value = Value::Mapping,
                _ => return Err(invalid("mapping values are not allowed in this context")),
            }
        } else {
            let (key, value) = line.split_once(':').ok_or_else(|| invalid("not a mapping"))?;
            fields.push(Field {
                key: key.to_string(),
                line: number,
                value: if value.is_empty() {
                    Value::Other
                } else {
                    scalar(value.trim_start())
                },
            });
        }
    }
    Ok(fields)
}

/// Takes a fixture apart.
fn document(src: &str) -> Document {
    let whole = |err: Option<Error>| Document {
        fm: Frontmatter {
            present: false,
            end_line: 0,
            fields: vec![],
        },
        body: src.to_string(),
        err,
    };
    let lines: Vec<&str> = src.split('\n').collect();
    let opening = match lines.iter().position(|l| !l.trim().is_empty()) {
        Some(n) if lines[n] == "---" => n,
        _ => return whole(None),
    };
    if opening > 0 {
        return whole(Some(Error {
            kind: ErrKind::NotFirst,
            line: opening + 1,
            msg: "front matter must open on line 1".to_string(),
        }));
    }
    let closing = match lines.iter().skip(1).position(|l| *l == "---") {
        Some(n) => n + 1,
        None => {
            return whole(Some(Error {
                kind: ErrKind::Unterminated,
                line: 1,
                msg: "front matter is never closed".to_string(),
            }))
        }
    };
    let (fields, err) = match fields(&lines[1..closing]) {
        Ok(fields) => (fields, None),
        Err(err) => (vec![], Some(err)),
    };
    Document {
        fm: Frontmatter {
            present: true,
            end_line: closing + 1,
            fields,
        },
        body: lines[closing + 1..].join("\n"),
        err,
    }
}

fn skill_target(skill_name: &str) -> Target {
    Target {
        path: format!("/base/{skill_name}/SKILL.md"),
        kind: Kind::Skill,
        root: FilePath::parse("/base"),
    }
}

fn agents_target() -> Target {
    agents_target_under("/base", "/base")
}

/// An AGENTS.md in `dir`, but discovered under walk root `root`. Separate from
/// `agents_target` so a fixture can sit below its root, which is what makes a
/// `../` reference back into the tree distinguishable from one that escapes it.
fn agents_target_under(root: &str, dir: &str) -> Target {
    Target {
        path: format!("{dir}/AGENTS.md"),
        kind: Kind::Agents,
        root: FilePath::parse(root),
    }
}

/// Lints `src`, `files` being all the files there are.
fn lint_with<C: Counter>(linter: &Linter<C>, t: &Target, src: &str, files: &[&str]) -> FileResult {
    let existing: Vec<FilePath> = files.iter().map(|f| FilePath::parse(f)).collect();
    linter.check(t, &document(src), &existing)
}

fn lint(cfg: Config, t: &Target, src: &str) -> FileResult {
    lint_with(&linter(cfg), t, src, &[])
}

fn rule_ids(findings: &[Finding]) -> Vec<&str> {
    findings.iter().map(|f| f.rule.as_str()).collect()
}

/// Every budget off, so rule tests see only the rule under test. Spelled out
/// rather than derived from Config::default(), which carries the real budgets.
fn generous_config() -> Config {
    Config {
        max_agents_tokens: 0,
        max_skill_tokens: 0,
        max_skill_name_tokens: 0,
        max_skill_description_tokens: 0,
        disabled: vec![],
        strict: false,
    }
}

const VALID_SKILL: &str = "---\nname: valid-skill\ndescription: Use this skill when you need a fixture that passes every rule.\n---\n\n# Valid skill\n\nBody content.\n";

#[test]
fn skill_frontmatter_rules() {
    let long_name = "a".repeat(MAX_NAME_CHARS + 1);
    let long_desc = "x".repeat(MAX_DESCRIPTION_CHARS + 1);
    let cases: Vec<(&str, &str, String, Vec<&str>)> = vec![
        ("valid skill has no findings", "valid-skill", VALID_SKILL.to_string(), vec![]),
        (
            "missing front matter",
            "no-frontmatter",
            "# A skill with no front matter\n\nBody.\n".to_string(),
            vec![RULE_FRONTMATTER_MISSING],
        ),
        (
            "front matter not first",
            "late-frontmatter",
            "\n---\nname: late-frontmatter\ndescription: Late.\n---\n".to_string(),
            vec![RULE_FRONTMATTER_NOT_FIRST],
        ),
        (
            "unterminated front matter",
            "unterminated",
            "---\nname: unterminated\ndescription: No closing fence.\n".to_string(),
            vec![RULE_FRONTMATTER_UNTERMINATED],
        ),
        (
            "invalid yaml",
            "bad-yaml",
            "---\nname: bad-yaml\n  description: wrong indent\n---\nBody.\n".to_string(),
            vec![RULE_FRONTMATTER_INVALID],
        ),
        (
            "front matter is a sequence",
            "sequence",
            "---\n- name: sequence\n---\nBody.\n".to_string(),
            vec![RULE_FRONTMATTER_INVALID],
        ),
        (
            "name missing",
            "nameless",
            "---\ndescription: A skill with no name.\n---\nBody.\n".to_string(),
            vec![RULE_NAME_REQUIRED],
        ),
        (
            "name empty",
            "empty-name",
            "---\nname: \"\"\ndescription: A skill with an empty name.\n---\nBody.\n".to_string(),
            vec![RULE_NAME_REQUIRED],
        ),
        (
            "name not a scalar",
            "listy-name",
            "---\nname:\n  - listy-name\ndescription: A skill whose name is a list.\n---\nBody.\n"
                .to_string(),
            vec![RULE_NAME_REQUIRED],
        ),
        (
            "name has bad characters",
            "Bad_Name",
            "---\nname: Bad_Name\ndescription: A skill with an invalid name.\n---\nBody.\n".to_string(),
            vec![RULE_NAME_FORMAT],
        ),
        (
            "name has double hyphen",
            "double--hyphen",
            "---\nname: double--hyphen\ndescription: A skill with a doubled hyphen.\n---\nBody.\n"
                .to_string(),
            vec![RULE_NAME_FORMAT],
        ),
        (
            "name too long",
            "long",
            format!(
                "---\nname: {long_name}\ndescription: A skill with a very long name.\n---\nBody.\n"
            ),
            vec![RULE_NAME_LENGTH, RULE_NAME_DIR_MISMATCH],
        ),
        (
            "name does not match directory",
            "some-directory",
            "---\nname: other-name\ndescription: A skill in a mismatched directory.\n---\nBody.\n"
                .to_string(),
            vec![RULE_NAME_DIR_MISMATCH],
        ),
        (
            "description missing",
            "no-description",
            "---\nname: no-description\n---\nBody.\n".to_string(),
            vec![RULE_DESCRIPTION_REQUIRED],
        ),
        (
            "description empty",
            "blank-description",
            "---\nname: blank-description\ndescription: \"   \"\n---\nBody.\n".to_string(),
            vec![RULE_DESCRIPTION_REQUIRED],
        ),
        (
            "description too long",
            "verbose",
            format!("---\nname: verbose\ndescription: {long_desc}\n---\nBody.\n"),
            vec![RULE_DESCRIPTION_LENGTH],
        ),
        (
            "unknown key",
            "extra-keys",
            "---\nname: extra-keys\ndescription: A skill with a stray key.\nauthor: someone\n---\nBody.\n"
                .to_string(),
            vec![RULE_FRONTMATTER_UNKNOWN_KEY],
        ),
        (
            "known optional keys are accepted",
            "optional-keys",
            "---\nname: optional-keys\ndescription: A skill using every optional key.\nlicense: MIT\nallowed-tools:\n  - Read\n  - Bash\nmetadata:\n  owner: infra\n---\nBody.\n".to_string(),
            vec![],
        ),
        (
            "allowed-tools wrong type",
            "bad-tools",
            "---\nname: bad-tools\ndescription: A skill with a malformed tool list.\nallowed-tools:\n  read: true\n---\nBody.\n".to_string(),
            vec![RULE_ALLOWED_TOOLS_TYPE],
        ),
        (
            "metadata wrong type",
            "bad-metadata",
            "---\nname: bad-metadata\ndescription: A skill with scalar metadata.\nmetadata: not-a-mapping\n---\nBody.\n".to_string(),
            vec![RULE_METADATA_TYPE],
        ),
        (
            "several problems are all reported",
            "multi",
            "---\nname: Multi_Skill\nextra: true\n---\nBody.\n".to_string(),
            vec![
                RULE_FRONTMATTER_UNKNOWN_KEY,
                RULE_NAME_FORMAT,
                RULE_NAME_DIR_MISMATCH,
                RULE_DESCRIPTION_REQUIRED,
            ],
        ),
    ];

    for (name, skill_dir_name, src, want_rules) in cases {
        let target = skill_target(skill_dir_name);
        let res = lint(generous_config(), &target, &src);
        assert_eq!(rule_ids(&res.findings), want_rules, "{name}");
    }
}

#[test]
fn token_budgets() {
    let target = skill_target("budgeted");

    let mut cfg = generous_config();
    cfg.max_skill_tokens = 1;
    let res = lint(cfg, &target, VALID_SKILL);
    assert_eq!(
        rule_ids(&res.findings),
        vec![RULE_NAME_DIR_MISMATCH, RULE_TOKENS_CONTENT]
    );

    let mut cfg = generous_config();
    cfg.max_skill_tokens = 0;
    let res = lint(cfg, &target, VALID_SKILL);
    assert_eq!(rule_ids(&res.findings), vec![RULE_NAME_DIR_MISMATCH]);

    let mut cfg = generous_config();
    cfg.max_skill_name_tokens = 1;
    let res = lint(cfg, &target, VALID_SKILL);
    assert_eq!(
        rule_ids(&res.findings),
        vec![RULE_NAME_DIR_MISMATCH, RULE_TOKENS_NAME]
    );

    let mut cfg = generous_config();
    cfg.max_skill_description_tokens = 2;
    let res = lint(cfg, &target, VALID_SKILL);
    assert_eq!(
        rule_ids(&res.findings),
        vec![RULE_NAME_DIR_MISMATCH, RULE_TOKENS_DESCRIPTION]
    );

    let res = lint(generous_config(), &target, VALID_SKILL);
    assert!(res.tokens.content > 0 && res.tokens.name > 0 && res.tokens.description > 0);
}

#[test]
fn per_kind_content_budget() {
    let body = "some filler prose to spend tokens on. ".repeat(20);
    let agents = agents_target();
    let skill = skill_target("kinded");
    let skill_src = format!("---\nname: kinded\ndescription: A skill with a body.\n---\n{body}");

    let mut cfg = generous_config();
    cfg.max_skill_tokens = 10000;
    cfg.max_agents_tokens = 1;
    let both = linter(cfg.clone());

    let agents_res = lint_with(&both, &agents, &body, &[]);
    assert_eq!(agents_res.errors(), 1);

    let skill_res = lint_with(&both, &skill, &skill_src, &[]);
    assert!(!skill_res
        .findings
        .iter()
        .any(|f| f.rule == RULE_TOKENS_CONTENT));

    cfg.max_agents_tokens = 0;
    cfg.max_skill_tokens = 1;
    let skill_res = lint(cfg, &skill, &skill_src);
    assert!(skill_res
        .findings
        .iter()
        .any(|f| f.rule == RULE_TOKENS_CONTENT));
}

#[test]
fn agents_frontmatter_is_not_validated() {
    let src = "---\ntitle: Project instructions\nowner: infra\n---\n\n# Instructions\n\nBody.\n";
    let target = agents_target();

    let res = lint(generous_config(), &target, src);
    assert!(res.findings.is_empty());
    assert!(res.tokens.content > 0);
}

#[test]
fn agents_unterminated_frontmatter_is_reported() {
    let src = "---\ntitle: Project instructions\n\n# Instructions never closed\n";
    let target = agents_target();

    let res = lint(generous_config(), &target, src);
    assert_eq!(rule_ids(&res.findings), vec![RULE_FRONTMATTER_UNTERMINATED]);
}

#[test]
fn agents_frontmatter_excluded_from_content() {
    let fm_src =
        "---\ntitle: A fairly wordy front matter block that costs real tokens\n---\nBody.\n";
    let with_fm = agents_target();
    let bare = agents_target();

    let linter = linter(generous_config());
    let with_res = lint_with(&linter, &with_fm, fm_src, &[]);
    let bare_res = lint_with(&linter, &bare, "Body.\n", &[]);
    assert_eq!(with_res.tokens.content, bare_res.tokens.content);
}

#[test]
fn name_dir_mismatch_uses_injected_cwd() {
    // name.dir-mismatch deliberately ignores a skill sitting directly in
    // the working directory, since a loose SKILL.md is named for its
    // project rather than its folder.
    let target = skill_target("some-directory");
    let src = "---\nname: other-name\ndescription: A skill in a mismatched directory.\n---\nBody.\n";
    let holding_dir = FilePath::parse("/base/some-directory");

    let res = lint_with(
        &Linter::with_cwd(generous_config(), Quarters, holding_dir),
        &target,
        src,
        &[],
    );
    assert!(res.findings.is_empty(), "{:?}", rule_ids(&res.findings));

    let res = lint_with(
        &Linter::with_cwd(generous_config(), Quarters, FilePath::parse("/base")),
        &target,
        src,
        &[],
    );
    assert_eq!(rule_ids(&res.findings), vec![RULE_NAME_DIR_MISMATCH]);
}

#[test]
fn default_config_enforces_budgets() {
    let cfg = Config::default();
    assert_eq!(cfg.max_agents_tokens, DEFAULT_MAX_AGENTS_TOKENS);
    assert_eq!(cfg.max_skill_tokens, DEFAULT_MAX_SKILL_TOKENS);
    assert_eq!(cfg.max_skill_name_tokens, DEFAULT_MAX_SKILL_NAME_TOKENS);
    assert_eq!(
        cfg.max_skill_description_tokens,
        DEFAULT_MAX_SKILL_DESCRIPTION_TOKENS
    );

    // The point of the hand-written Default: reaching for it must not
    // hand back a linter that checks nothing.
    let body = "some filler prose to spend tokens on. ".repeat(500);
    let target = agents_target();
    let res = lint(Config::default(), &target, &body);
    assert_eq!(rule_ids(&res.findings), vec![RULE_TOKENS_CONTENT]);
}

#[test]
fn strict_promotes_warnings() {
    let target = skill_target("mismatched-dir");
    let src = "---\nname: other-name\ndescription: A skill in a mismatched directory.\n---\nBody.\n";

    let cfg = generous_config();
    let res = lint(cfg.clone(), &target, src);
    assert_eq!(res.errors(), 0);
    assert_eq!(res.warnings(), 1);

    let mut cfg = cfg;
    cfg.strict = true;
    let res = lint(cfg, &target, src);
    assert_eq!(res.errors(), 1);
    assert_eq!(res.warnings(), 0);
}

#[test]
fn disable_skips_rules() {
    let target = skill_target("mismatched-dir");
    let src = "---\nname: Bad_Name\ndescription: A skill with an invalid name.\n---\nBody.\n";

    let mut cfg = generous_config();
    cfg.disabled = vec![
        RULE_NAME_FORMAT.to_string(),
        RULE_NAME_DIR_MISMATCH.to_string(),
    ];
    let res = lint(cfg, &target, src);
    assert!(res.findings.is_empty());
}

#[test]
fn findings_carry_file_and_line() {
    let target = skill_target("lines");
    let src = "---\nname: Bad_Name\ndescription: A skill with an invalid name.\n---\nBody.\n";

    let res = lint(generous_config(), &target, src);
    assert_eq!(res.findings.len(), 2);
    for f in &res.findings {
        assert_eq!(f.file, target.path);
        if f.rule == RULE_NAME_FORMAT {
            assert_eq!(f.line, 2);
        }
    }
}

#[test]
fn file_reference_rule() {
    {
        let src = "# Instructions\n\nSee [notes](./notes.md) for details.\n";
        let target = agents_target();
        let res = lint_with(
            &linter(generous_config()),
            &target,
            src,
            &["/base/notes.md"],
        );
        assert!(res.findings.is_empty());
    }
    {
        let src = "# Instructions\n\nSee [notes](./notes.md) for details.\n";
        let target = agents_target();
        let res = lint(generous_config(), &target, src);
        assert_eq!(rule_ids(&res.findings), vec![RULE_FILE_REFERENCE_MISSING]);
    }
    {
        let src = "See [docs](https://example.com/x), [mail](mailto:a@example.com) and [section](#heading).\n";
        let target = agents_target();
        let res = lint(generous_config(), &target, src);
        assert!(res.findings.is_empty());
    }
    {
        let src = "Example syntax:\n\n```md\n[example](./missing.md)\n```\n";
        let target = agents_target();
        let res = lint(generous_config(), &target, src);
        assert!(res.findings.is_empty());
    }
    {
        let target = skill_target("with-link");
        let src = "---\nname: with-link\ndescription: A skill that references a missing helper script.\n---\nSee [helper](./helper.sh).\n";
        let res = lint(generous_config(), &target, src);
        assert_eq!(rule_ids(&res.findings), vec![RULE_FILE_REFERENCE_MISSING]);
    }
    {
        let src = "# Instructions\n\nIntro line.\n\nSee [notes](./notes.md).\n";
        let target = agents_target();
        let res = lint(generous_config(), &target, src);
        assert_eq!(res.findings.len(), 1);
        assert_eq!(res.findings[0].line, 5);
    }
}

#[test]
fn file_references_outside_the_linted_tree_are_skipped() {
    // Escapes are skipped whether or not the target exists. A finding that
    // distinguished "exists" from "does not exist" above the root would make
    // any file's markdown a probe for what is on the host.
    let files = ["/outer/outside.md"];
    let root = "/outer/root";
    let sub = "/outer/root/sub";

    let escaping: &[(&str, &str)] = &[
        (
            "link to an existing file above the root",
            "See [x](../../outside.md).\n",
        ),
        (
            "link to a missing file above the root",
            "See [x](../../nowhere.md).\n",
        ),
        ("code span escaping the root", "Read `../../outside.md`.\n"),
    ];
    for (name, src) in escaping {
        let target = agents_target_under(root, sub);
        let linter = linter(generous_config());
        let res = lint_with(&linter, &target, src, &files);
        assert!(
            res.findings.is_empty(),
            "{name}: {:?}",
            rule_ids(&res.findings)
        );
        assert!(linter.references(&target, &document(src)).is_empty());
    }

    // Control: a missing reference that stays inside the tree is still
    // reported, so the cases above are not passing vacuously.
    let target = agents_target_under(root, sub);
    let res = lint_with(
        &linter(generous_config()),
        &target,
        "See [x](./nowhere.md).\n",
        &files,
    );
    assert_eq!(rule_ids(&res.findings), vec![RULE_FILE_REFERENCE_MISSING]);
}

#[test]
fn file_reference_rule_nested_fences() {
    // A fence closes only on the same marker, at least as long, with no
    // info string: the block body must stay unscanned, and the tracker must
    // not latch open and swallow the prose that follows.
    let cases: &[(&str, &str, Vec<&str>)] = &[
        (
            "inner ``` does not close an outer ````",
            "````md\n```\n[x](./missing.md)\n```\nstill inside: [y](./gone.md)\n````\n",
            vec![],
        ),
        (
            "~~~ does not close a ``` block",
            "```\n~~~\n[x](./missing.md)\n~~~\n```\n",
            vec![],
        ),
        (
            "a fence carrying an info string does not close",
            "```\n```rust\n[x](./missing.md)\n```\n",
            vec![],
        ),
        (
            "prose after a closed block is still scanned",
            "````\n```\n````\n\nSee [y](./gone.md).\n",
            vec![RULE_FILE_REFERENCE_MISSING],
        ),
        (
            "a longer run closes a shorter block",
            "```\n[x](./missing.md)\n````\n\nSee [y](./gone.md).\n",
            vec![RULE_FILE_REFERENCE_MISSING],
        ),
        (
            "an indented closing fence still closes",
            "```\n[x](./missing.md)\n  ```\n\nSee [y](./gone.md).\n",
            vec![RULE_FILE_REFERENCE_MISSING],
        ),
    ];

    for (name, src, want) in cases {
        let target = agents_target();
        let res = lint(generous_config(), &target, src);
        assert_eq!(rule_ids(&res.findings), *want, "{name}");
    }
}

#[test]
fn file_reference_rule_code_spans() {
    {
        // Path-shaped inline code span pointing at a missing file inside
        // the tree.
        let src = "Read instructions from `../planner_instructions.md`.\n";
        let target = agents_target_under("/base", "/base/sub");
        let res = lint(generous_config(), &target, src);
        assert_eq!(rule_ids(&res.findings), vec![RULE_FILE_REFERENCE_MISSING]);
    }
    {
        // Same reference, but the file exists. A `../` hop that lands back
        // inside the linted tree must still be checked.
        let src = "Read instructions from `../planner_instructions.md`.\n";
        let target = agents_target_under("/base", "/base/sub");
        let res = lint_with(
            &linter(generous_config()),
            &target,
            src,
            &["/base/planner_instructions.md"],
        );
        assert!(res.findings.is_empty());
    }
    {
        // Code spans that are not path-shaped are left alone.
        let src = "Run `cargo test`, check `--strict`, or see `notes` and `./bin/lint`.\n";
        let target = agents_target();
        let res = lint(generous_config(), &target, src);
        assert!(res.findings.is_empty());
    }
    {
        // A link and a code span pointing at the same missing target on
        // one line report once, not twice.
        let src = "See [it](./missing.md) or `./missing.md`.\n";
        let target = agents_target();
        let res = lint(generous_config(), &target, src);
        assert_eq!(rule_ids(&res.findings), vec![RULE_FILE_REFERENCE_MISSING]);
    }
    {
        // Code spans inside fenced code blocks are still ignored.
        let src = "Example:\n\n```md\nSee `../missing.md`.\n```\n";
        let target = agents_target();
        let res = lint(generous_config(), &target, src);
        assert!(res.findings.is_empty());
    }
}

/// The lines, rules, severities and messages of the findings.
fn details(res: &FileResult) -> Vec<(usize, &str, Severity, &str)> {
    res.findings
        .iter()
        .map(|f| (f.line, f.rule.as_str(), f.severity, f.message.as_str()))
        .collect()
}

#[test]
fn messages_of_front_matter_rules() {
    let src = "---\nname: Multi_Skill\nex\ttra: true\nallowed-tools:\n  read: true\nmetadata: no\n---\nBody.\n";
    let res = lint(generous_config(), &skill_target("multi"), src);
    assert_eq!(
        details(&res),
        vec![
            (
                3,
                RULE_FRONTMATTER_UNKNOWN_KEY,
                Severity::Warning,
                "unknown front-matter key \"ex\\ttra\"",
            ),
            (
                2,
                RULE_NAME_FORMAT,
                Severity::Error,
                "name \"Multi_Skill\" must be lowercase letters, digits and single hyphens (for example my-skill)",
            ),
            (
                2,
                RULE_NAME_DIR_MISMATCH,
                Severity::Warning,
                "name \"Multi_Skill\" does not match its directory \"multi\"",
            ),
            (
                0,
                RULE_DESCRIPTION_REQUIRED,
                Severity::Error,
                "front matter must declare a non-empty string description saying when to use the skill",
            ),
            (
                4,
                RULE_ALLOWED_TOOLS_TYPE,
                Severity::Error,
                "allowed-tools must be a list of tool names or a comma-separated string",
            ),
            (
                6,
                RULE_METADATA_TYPE,
                Severity::Error,
                "metadata must be a mapping of keys to values",
            ),
        ]
    );
}

#[test]
fn messages_of_length_rules() {
    let name = "a".repeat(65);
    let description = "\u{e9}".repeat(1025);
    let src = format!("---\nname: {name}\ndescription: {description}\n---\n");
    let res = lint(generous_config(), &skill_target(&name), &src);
    assert_eq!(
        details(&res),
        vec![
            (
                2,
                RULE_NAME_LENGTH,
                Severity::Error,
                "name is 65 characters, over the 64 character limit",
            ),
            (
                3,
                RULE_DESCRIPTION_LENGTH,
                Severity::Error,
                "description is 1,025 characters, over the 1,024 character limit",
            ),
        ]
    );

    // At the limits nothing is said, however many bytes the characters take.
    let name = "a".repeat(64);
    let description = "\u{e9}".repeat(1024);
    let src = format!("---\nname: {name}\ndescription: {description}\n---\n");
    let res = lint(generous_config(), &skill_target(&name), &src);
    assert!(res.findings.is_empty());
}

#[test]
fn messages_of_token_budgets() {
    let mut cfg = generous_config();
    cfg.max_skill_tokens = 1000;
    cfg.max_skill_name_tokens = 1234567;
    cfg.max_skill_description_tokens = 5;
    let counts = |content: usize, name: usize, description: usize| Counts {
        content,
        name,
        description,
    };
    let linter = linter(cfg);
    let target = skill_target("valid-skill");
    let doc = document(VALID_SKILL);
    let res = linter.check_counted(&target, &doc, counts(6142, 1234568, 6), &vec![]);
    assert_eq!(
        details(&res),
        vec![
            (
                0,
                RULE_TOKENS_CONTENT,
                Severity::Error,
                "content is 6,142 tokens, over the 1,000 token limit",
            ),
            (
                2,
                RULE_TOKENS_NAME,
                Severity::Error,
                "name is 1,234,568 tokens, over the 1,234,567 token limit",
            ),
            (
                3,
                RULE_TOKENS_DESCRIPTION,
                Severity::Error,
                "description is 6 tokens, over the 5 token limit",
            ),
        ]
    );
    assert_eq!(res.tokens, counts(6142, 1234568, 6));

    // A budget that is met exactly is met.
    let res = linter.check_counted(&target, &doc, counts(1000, 1234567, 5), &vec![]);
    assert!(res.findings.is_empty());
}

#[test]
fn unreadable_front_matter_is_told_once() {
    let cases: &[(&str, usize, &str, &str)] = &[
        (
            "Body.\n",
            1,
            RULE_FRONTMATTER_MISSING,
            "missing YAML front matter: a skill must open with a --- fenced block declaring name and description",
        ),
        (
            "\n\n---\nauthor: x\n---\n",
            3,
            RULE_FRONTMATTER_NOT_FIRST,
            "front matter must open on line 1",
        ),
        (
            "---\nauthor: x\n",
            1,
            RULE_FRONTMATTER_UNTERMINATED,
            "front matter is never closed",
        ),
        (
            "---\n- author\n---\n",
            2,
            RULE_FRONTMATTER_INVALID,
            "front matter must be a mapping",
        ),
    ];
    for (src, line, rule, message) in cases {
        let res = lint(generous_config(), &skill_target("x"), src);
        assert_eq!(
            details(&res),
            vec![(*line, *rule, Severity::Error, *message)]
        );
        assert_eq!((res.tokens.name, res.tokens.description), (0, 0));
    }

    // Nor does an AGENTS.md hear of more than front matter that never ends.
    for (src, _, rule, _) in cases {
        let res = lint(generous_config(), &agents_target(), src);
        let want: Vec<&str> = if *rule == RULE_FRONTMATTER_UNTERMINATED {
            vec![*rule]
        } else {
            vec![]
        };
        assert_eq!(rule_ids(&res.findings), want);
    }
}

#[test]
fn references_are_listed_before_they_are_looked_up() {
    let src = "---\ntitle: x\n---\nSee [a](./a.md \"title\"), ![b](<img/b c.png>) and [c](sub/../c.md#part).\n`../up.md` [d](/abs.md) [e](x{y}.md) [a](./a.md) [a](./a.md)\n";
    let target = agents_target_under("/base", "/base/dir");
    let doc = document(src);
    let references = linter(generous_config()).references(&target, &doc);
    let listed: Vec<(usize, &str, &FilePath)> = references
        .iter()
        .map(|r| (r.line, r.target.as_str(), &r.resolved))
        .collect();
    assert_eq!(
        listed,
        vec![
            (4, "./a.md", &FilePath::parse("/base/dir/a.md")),
            (4, "img/b", &FilePath::parse("/base/dir/img/b")),
            (4, "sub/../c.md", &FilePath::parse("/base/dir/c.md")),
            (5, "./a.md", &FilePath::parse("/base/dir/a.md")),
            (5, "./a.md", &FilePath::parse("/base/dir/a.md")),
            (5, "../up.md", &FilePath::parse("/base/up.md")),
        ]
    );

    let existing = vec![
        FilePath::parse("/base/dir/a.md"),
        FilePath::parse("/base/dir/img/b"),
        FilePath::parse("/base/dir/c.md"),
    ];
    let res = linter(generous_config()).check(&target, &doc, &existing);
    assert_eq!(
        details(&res),
        vec![(
            5,
            RULE_FILE_REFERENCE_MISSING,
            Severity::Error,
            "referenced file \"../up.md\" does not exist",
        )]
    );
}

#[test]
fn relative_paths_are_read_in_the_working_directory() {
    let target = Target {
        path: "docs/AGENTS.md".to_string(),
        kind: Kind::Agents,
        root: FilePath::parse("."),
    };
    let references = linter(generous_config())
        .references(&target, &document("[in](../in.md) [out](../../out.md)\n"));
    assert_eq!(references.len(), 1);
    assert_eq!(references[0].resolved, FilePath::parse("/work/in.md"));

    // Without a working directory a path is read as it stands, and a root
    // that comes to nothing holds nothing.
    let nowhere = Linter::with_cwd(generous_config(), Quarters, FilePath::parse(""));
    assert!(nowhere
        .references(&target, &document("[in](../in.md)\n"))
        .is_empty());
}

#[test]
fn strict_changes_nothing_but_severity() {
    let src = "---\nname: Multi_Skill\nextra: true\n---\nSee [x](x.md).\n";
    let target = skill_target("multi");
    let lenient = lint(generous_config(), &target, src);
    let mut cfg = generous_config();
    cfg.strict = true;
    let strict = lint(cfg, &target, src);
    assert_eq!((lenient.errors(), lenient.warnings()), (3, 2));
    assert_eq!((strict.errors(), strict.warnings()), (5, 0));
    assert_eq!(rule_ids(&lenient.findings), rule_ids(&strict.findings));
    for (a, b) in lenient.findings.iter().zip(&strict.findings) {
        assert_eq!((&a.file, a.line, &a.message), (&b.file, b.line, &b.message));
    }
}

#[test]
fn each_rule_can_be_disabled() {
    let src = "---\nname: Multi_Skill\nextra: true\n---\nSee [x](x.md).\n";
    let target = skill_target("multi");
    let all = lint(generous_config(), &target, src);
    for rule in rule_ids(&all.findings) {
        let mut cfg = generous_config();
        cfg.disabled = vec![rule.to_string(), "no.such-rule".to_string()];
        let res = lint(cfg, &target, src);
        assert_eq!(res.findings.len(), all.findings.len() - 1);
        assert!(!rule_ids(&res.findings).contains(&rule));
    }
}

#[test]
fn several_rules_are_disabled_at_once() {
    let src = "---\nname: Multi_Skill\nextra: true\n---\nSee [x](x.md).\n";
    let target = skill_target("multi");
    let all = lint(generous_config(), &target, src);
    let off = [RULE_NAME_FORMAT, RULE_FILE_REFERENCE_MISSING, RULE_METADATA_TYPE];
    let mut cfg = generous_config();
    cfg.disabled = off.iter().map(|rule| rule.to_string()).collect();
    let res = lint(cfg, &target, src);
    let left: Vec<(usize, &str, Severity, &str)> = details(&all)
        .into_iter()
        .filter(|(_, rule, _, _)| !off.contains(rule))
        .collect();
    assert_eq!(details(&res), left);
    assert_eq!(left.len(), 3);
}

#[test]
fn budgets_of_the_other_kind_change_nothing() {
    let agents_src = "some filler prose to spend tokens on\n";
    let skill_src =
        "---\nname: kinded\ndescription: A skill with a body.\n---\nsome filler prose\n";
    let mut cfg = generous_config();
    cfg.max_agents_tokens = 1;
    let alone = lint(cfg.clone(), &agents_target(), agents_src);
    cfg.max_skill_tokens = 1;
    cfg.max_skill_name_tokens = 1;
    cfg.max_skill_description_tokens = 1;
    let res = lint(cfg.clone(), &agents_target(), agents_src);
    assert_eq!(details(&res), details(&alone));
    assert_eq!(rule_ids(&res.findings), vec![RULE_TOKENS_CONTENT]);

    let target = skill_target("kinded");
    let res = lint(cfg.clone(), &target, skill_src);
    cfg.max_agents_tokens = 0;
    let other = lint(cfg, &target, skill_src);
    assert_eq!(details(&other), details(&res));
    assert_eq!(
        rule_ids(&res.findings),
        vec![RULE_TOKENS_CONTENT, RULE_TOKENS_NAME, RULE_TOKENS_DESCRIPTION]
    );
}

#[test]
fn line_numbers_must_fit() {
    let mut doc = document("---\ntitle: x\n---\na\nb\n");
    assert!(doc.is_countable());
    // Three lines follow the closing fence.
    doc.fm.end_line = usize::MAX - 3;
    assert!(doc.is_countable());
    doc.fm.end_line = usize::MAX - 2;
    assert!(!doc.is_countable());
    doc.fm.present = false;
    assert!(doc.is_countable());
}

#[test]
fn counter_sees_body_name_and_description_only() {
    struct Lengths;
    impl Counter for Lengths {
        fn count(&self, text: &str) -> usize {
            text.len()
        }
    }
    let boxed: Box<dyn Counter> = Box::new(Lengths);
    let linter = Linter::with_cwd(generous_config(), boxed, FilePath::parse("/work"));
    let src = "---\nname: \" ab \"\ndescription: abc\n---\nBody.\n";
    let res = lint_with(&linter, &skill_target("ab"), src, &[]);
    assert_eq!(
        res.tokens,
        Counts {
            content: 6,
            name: 2,
            description: 3,
        }
    );
    let res = lint_with(&linter, &agents_target(), src, &[]);
    assert_eq!(
        res.tokens,
        Counts {
            content: 6,
            name: 0,
            description: 0,
        }
    );
}

#[test]
fn severities_read_as_words() {
    assert_eq!(Severity::Error.as_str(), "error");
    assert_eq!(Severity::Warning.as_str(), "warning");
}
