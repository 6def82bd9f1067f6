//! Text, paths, patterns, fences and numbers on their own.
use ctxlint::fence::{fence_parts, FenceTracker};
use ctxlint::finding::{is_zero, Finding, Severity};
use ctxlint::format::{decimal_string, humanize};
use ctxlint::parse::{Field, Frontmatter, Value};
use ctxlint::path::{clean_path, contains_path, Component, FilePath};
use ctxlint::patterns::{
    code_spans, has_uri_scheme, is_name, links, CODE_SPAN_PATTERN, LINK_PATTERN, NAME_PATTERN,
    URI_SCHEME_PATTERN,
};
use ctxlint::reference::{code_span_target_path, link_target_path, targets_in_line};
use ctxlint::rules::{
    rule_rank, sort_findings, RULES, RULE_FILE_REFERENCE_MISSING, RULE_NAME_FORMAT,
    RULE_TOKENS_NAME,
};
use ctxlint::text::{
    contains_char, contains_text, contains_white_space, find_any, find_last, is_white_space,
    same_text, split, starts_with, trim,
};
use regex::Regex;

#[test]
fn humanize_formats_with_separators() {
    let cases: &[(i64, &str)] = &[
        (0, "0"),
        (7, "7"),
        (999, "999"),
        (1000, "1,000"),
        (6142, "6,142"),
        (1234567, "1,234,567"),
    ];
    for (n, want) in cases {
        assert_eq!(humanize(*n), *want, "humanize({n})");
    }
}

#[test]
fn humanize_at_the_edges() {
    assert_eq!(humanize(-1), "-1");
    assert_eq!(humanize(-1234567), "-1234567");
    assert_eq!(humanize(i64::MIN), "-9223372036854775808");
    assert_eq!(humanize(i64::MAX), "9,223,372,036,854,775,807");
    assert_eq!(humanize(1000000), "1,000,000");
    assert_eq!(humanize(1005), "1,005");
    for n in [0, 9, 10, 99, 100, 12345, 999999] {
        assert_eq!(humanize(n).replace(',', ""), n.to_string());
    }
    assert_eq!(decimal_string(0), "0");
    assert_eq!(decimal_string(u64::MAX), u64::MAX.to_string());
}

#[test]
fn white_space_is_unicode_white_space() {
    for code in 0..=0x10ffffu32 {
        if let Some(c) = char::from_u32(code) {
            assert_eq!(is_white_space(c), c.is_whitespace(), "{code:x}");
        }
    }
}

/// Every text of up to `len` characters over `alphabet`.
fn all_texts(alphabet: &[char], len: usize) -> Vec<String> {
    let mut texts = vec![String::new()];
    let mut start = 0;
    for _ in 0..len {
        let end = texts.len();
        for i in start..end {
            for c in alphabet {
                let mut longer = texts[i].clone();
                longer.push(*c);
                texts.push(longer);
            }
        }
        start = end;
    }
    texts
}

#[test]
fn text_functions_on_small_texts() {
    for s in all_texts(&['a', ' ', '\u{2003}', '/'], 5) {
        assert_eq!(trim(&s), s.trim());
        assert_eq!(split(&s, '/'), s.split('/').collect::<Vec<&str>>());
        assert_eq!(contains_char(&s, '/'), s.contains('/'));
        assert_eq!(
            contains_white_space(&s),
            s.chars().any(char::is_whitespace)
        );
        let chars: Vec<char> = s.chars().collect();
        assert_eq!(find_last(&s, 'a'), chars.iter().rposition(|c| *c == 'a'));
        let first = chars.iter().position(|c| *c == '/' || *c == ' ');
        assert_eq!(find_any(&s, "/ "), first.unwrap_or(chars.len()));
        for prefix in ["", "a", "a/", " ", "//"] {
            assert_eq!(starts_with(&s, prefix), s.starts_with(prefix));
        }
        assert_eq!(same_text(&s, "a/"), s == "a/");
    }
    let list = vec!["a".to_string(), "b".to_string()];
    assert!(contains_text(&list, "b"));
    assert!(!contains_text(&list, "ab"));
}

#[test]
fn names_match_their_pattern() {
    let re = Regex::new(NAME_PATTERN).unwrap();
    for s in all_texts(&['a', '0', '-', 'B', '\n'], 5) {
        assert_eq!(is_name(&s), re.is_match(&s), "{s:?}");
        let segments = s
            .split('-')
            .all(|p| !p.is_empty() && p.chars().all(|c| c == 'a' || c == '0'));
        assert_eq!(is_name(&s), segments, "{s:?}");
    }
    assert!(is_name("my-skill-2"));
    assert!(!is_name("my_skill"));
    assert!(!is_name("\u{e9}t\u{e9}"));
}

#[test]
fn schemes_match_their_pattern() {
    let re = Regex::new(URI_SCHEME_PATTERN).unwrap();
    for s in all_texts(&['a', '0', '+', ':', '/', '_'], 4) {
        assert_eq!(has_uri_scheme(&s), re.is_match(&s), "{s:?}");
        // A letter, then letters, digits, `+`, `.` or `-`, up to a colon.
        let scheme = match s.split_once(':') {
            Some((scheme, _)) => {
                scheme.starts_with('a') && !scheme.contains('/') && !scheme.contains('_')
            }
            None => false,
        };
        assert_eq!(has_uri_scheme(&s), scheme, "{s:?}");
    }
    assert!(has_uri_scheme("https://example.com"));
    assert!(has_uri_scheme("X-a.b+c:"));
    assert!(!has_uri_scheme(" mailto:x"));
}

/// The links of a line, found without a regular expression: the text runs to
/// the next `]`, a `(` follows at once, and the target runs to the next `)`.
fn links_by_hand(s: &str) -> Vec<String> {
    let chars: Vec<char> = s.chars().collect();
    let next = |c: char, from: usize| (from..chars.len()).find(|i| chars[*i] == c);
    let mut found = Vec::new();
    let mut i = 0;
    while i < chars.len() {
        let mut end = None;
        if chars[i] == '[' {
            if let Some(close) = next(']', i + 1) {
                if chars.get(close + 1) == Some(&'(') {
                    if let Some(last) = next(')', close + 2) {
                        if last > close + 2 {
                            found.push(chars[close + 2..last].iter().collect());
                            end = Some(last + 1);
                        }
                    }
                }
            }
        }
        i = end.unwrap_or(i + 1);
    }
    found
}

#[test]
fn links_match_their_pattern() {
    let re = Regex::new(LINK_PATTERN).unwrap();
    for s in all_texts(&['[', ']', '(', ')', '!', 'a'], 7) {
        let want: Vec<String> = re
            .captures_iter(&s)
            .map(|caps| caps[1].to_string())
            .collect();
        assert_eq!(links_by_hand(&s), want, "{s:?}");
        if s.len() == 6 && s.starts_with('[') {
            assert_eq!(links(&s), want, "{s:?}");
        }
    }
    assert_eq!(
        links("![a](b.png) [c]( d e ) [f]() [g] (h) [i](j)"),
        vec!["b.png", " d e ", "j"]
    );
    assert!(links("no link").is_empty());
}

#[test]
fn code_spans_match_their_pattern() {
    let re = Regex::new(CODE_SPAN_PATTERN).unwrap();
    for s in all_texts(&['`', 'a', '\n'], 7) {
        let want: Vec<String> = re
            .captures_iter(&s)
            .map(|caps| caps[1].to_string())
            .collect();
        let chars: Vec<char> = s.chars().collect();
        let mut by_hand: Vec<String> = Vec::new();
        let mut i = 0;
        while i < chars.len() {
            let end = (i + 1..chars.len()).find(|k| chars[*k] == '`');
            match end {
                Some(end) if chars[i] == '`' && end > i + 1 => {
                    by_hand.push(chars[i + 1..end].iter().collect());
                    i = end + 1;
                }
                _ => i += 1,
            }
        }
        assert_eq!(by_hand, want, "{s:?}");
        if s.len() == 6 && s.starts_with('`') {
            assert_eq!(code_spans(&s), want, "{s:?}");
        }
    }
    assert_eq!(code_spans("a `b` ``c`` `d"), vec!["b", "c", " "]);
    assert!(code_spans("no span").is_empty());
}

#[test]
fn link_targets() {
    let cases: &[(&str, Option<&str>)] = &[
        ("./notes.md", Some("./notes.md")),
        ("  notes.md  ", Some("notes.md")),
        ("notes.md \"A title\"", Some("notes.md")),
        ("notes.md\t'A title'", Some("notes.md")),
        ("<notes.md>", Some("notes.md")),
        ("<my notes.md>", Some("my")),
        ("<notes.md", Some("<notes.md")),
        ("notes.md#part", Some("notes.md")),
        ("notes.md?raw=1", Some("notes.md")),
        ("../up.md", Some("../up.md")),
        ("a:b", None),
        ("./a:b", Some("./a:b")),
        ("", None),
        ("   ", None),
        ("<>", None),
        ("#part", None),
        ("?q", None),
        ("https://example.com/x", None),
        ("mailto:a@example.com", None),
        ("//example.com/x", None),
        ("/absolute.md", None),
        ("{{path}}.md", None),
        ("${HOME}/x.md", None),
        ("*.md", None),
    ];
    for (raw, want) in cases {
        assert_eq!(link_target_path(raw).as_deref(), *want, "{raw:?}");
    }
}

#[test]
fn code_span_targets() {
    let cases: &[(&str, Option<&str>)] = &[
        ("./a.md", Some("./a.md")),
        (" ../a/b.tar.gz ", Some("../a/b.tar.gz")),
        ("./.env", Some("./.env")),
        ("./x.7z", Some("./x.7z")),
        ("a.md", None),
        ("/a.md", None),
        ("./a", None),
        ("./a.", None),
        ("./a.b/c", None),
        ("./a.m_d", None),
        ("./a b.md", None),
        ("./..", None),
        ("./a.md#part", None),
        ("./a.md?x", None),
        ("./{a}.md", None),
        ("./$a.md", None),
        ("./*.md", None),
        ("", None),
        (".", None),
    ];
    for (raw, want) in cases {
        assert_eq!(code_span_target_path(raw).as_deref(), *want, "{raw:?}");
    }
}

#[test]
fn span_targets_follow_link_targets_without_repeats() {
    assert_eq!(
        targets_in_line("`./b.md` [a](a.md) [a](a.md) `./b.md` [c](./c.md) `./c.md`"),
        vec!["a.md", "a.md", "./c.md", "./b.md"]
    );
}

#[test]
fn fences_are_taken_apart() {
    let parts = |line: &str| fence_parts(line);
    assert_eq!(parts("```"), Some(('`', 3, String::new())));
    assert_eq!(parts("````md x"), Some(('`', 4, "md x".to_string())));
    assert_eq!(parts("~~~ `"), Some(('~', 3, " `".to_string())));
    assert_eq!(parts("```~~~"), Some(('`', 3, "~~~".to_string())));
    assert_eq!(parts("``"), None);
    assert_eq!(parts(" ```"), None);
    assert_eq!(parts("a```"), None);
    assert_eq!(parts(""), None);
}

#[test]
fn fences_open_and_close() {
    let mut fences = FenceTracker::default();
    let script = [
        ("prose", true),
        ("````md", false),
        ("inside", false),
        ("```", false),
        ("~~~~", false),
        ("`````rust", false),
        ("  `````  ", false),
        ("prose", true),
        ("~~~", false),
        ("inside", false),
    ];
    for (line, want) in script {
        assert_eq!(fences.scan_line(line), want, "{line:?}");
    }
}

/// The components of a path, as the standard library tells them.
fn std_components(path: &std::path::Path) -> Vec<Component> {
    path.components()
        .map(|c| match c {
            std::path::Component::RootDir => Component::RootDir,
            std::path::Component::CurDir => Component::CurDir,
            std::path::Component::ParentDir => Component::ParentDir,
            std::path::Component::Normal(name) => {
                Component::Normal(name.to_str().unwrap().to_string())
            }
            std::path::Component::Prefix(_) => unreachable!(),
        })
        .collect()
}

fn from_std(path: &std::path::Path) -> FilePath {
    FilePath {
        components: std_components(path),
    }
}

#[test]
fn paths_agree_with_the_standard_library() {
    let all = all_texts(&['/', '.', 'a'], 5);
    for s in &all {
        let path = FilePath::parse(s);
        let std_path = std::path::Path::new(s);
        assert_eq!(path, from_std(std_path), "{s:?}");
        assert_eq!(path.is_absolute(), std_path.is_absolute());
        assert_eq!(path.parent(), std_path.parent().map(from_std), "{s:?}");
        assert_eq!(
            path.file_name().as_deref(),
            std_path.file_name().and_then(|n| n.to_str())
        );
    }
    for s in &all {
        for t in ["", ".", "..", "./a", "a/b", "/a", "/"] {
            let (a, b) = (FilePath::parse(s), FilePath::parse(t));
            let (x, y) = (std::path::Path::new(s), std::path::Path::new(t));
            assert_eq!(a.join(&b), from_std(&x.join(y)), "{s:?} {t:?}");
            assert_eq!(a.starts_with(&b), x.starts_with(y), "{s:?} {t:?}");
            assert_eq!(a.same(&b), x == y, "{s:?} {t:?}");
        }
    }
}

#[test]
fn paths_are_cleaned() {
    let cases: &[(&str, &str)] = &[
        ("", "."),
        (".", "."),
        ("./a/./b", "a/b"),
        ("a/..", "."),
        ("a/../..", ".."),
        ("../../a/../b", "../../b"),
        ("/..", "/"),
        ("/../a/../../b", "/b"),
        ("/a/b/../c/", "/a/c"),
    ];
    for (path, want) in cases {
        let cleaned = clean_path(&FilePath::parse(path));
        assert_eq!(cleaned, FilePath::parse(want), "{path:?}");
        assert_eq!(clean_path(&cleaned), cleaned, "{path:?}");
    }
    let raw = FilePath {
        components: vec![
            Component::RootDir,
            Component::Opaque(vec![0xff]),
            Component::ParentDir,
            Component::Opaque(vec![0xfe]),
        ],
    };
    let cleaned = FilePath {
        components: vec![Component::RootDir, Component::Opaque(vec![0xfe])],
    };
    assert_eq!(clean_path(&raw), cleaned);
    assert_eq!(cleaned.file_name(), None);
    assert!(contains_path(&vec![cleaned.copy()], &cleaned));
    assert!(!contains_path(&vec![raw], &cleaned));
}

fn finding(rule: &str, line: usize) -> Finding {
    Finding {
        file: "f".to_string(),
        line,
        rule: rule.to_string(),
        severity: Severity::Error,
        message: String::new(),
    }
}

#[test]
fn findings_are_sorted_by_rule_and_keep_their_order() {
    let mut findings = vec![
        finding("no.such-rule", 1),
        finding(RULE_FILE_REFERENCE_MISSING, 2),
        finding(RULE_NAME_FORMAT, 3),
        finding(RULE_FILE_REFERENCE_MISSING, 1),
        finding(RULE_TOKENS_NAME, 4),
        finding(RULE_NAME_FORMAT, 2),
        finding("another.such-rule", 0),
    ];
    sort_findings(&mut findings);
    let order: Vec<(&str, usize)> = findings.iter().map(|f| (f.rule.as_str(), f.line)).collect();
    assert_eq!(
        order,
        vec![
            (RULE_NAME_FORMAT, 3),
            (RULE_NAME_FORMAT, 2),
            (RULE_TOKENS_NAME, 4),
            (RULE_FILE_REFERENCE_MISSING, 2),
            (RULE_FILE_REFERENCE_MISSING, 1),
            ("no.such-rule", 1),
            ("another.such-rule", 0),
        ]
    );
}

#[test]
fn rules_have_their_place() {
    for (i, rule) in RULES.iter().enumerate() {
        assert_eq!(rule_rank(&rule.to_string()), i);
    }
    assert_eq!(rule_rank(&"no.such-rule".to_string()), RULES.len());
}

#[test]
fn front_matter_is_looked_up_by_key() {
    let field = |key: &str, line: usize, value: Value| Field {
        key: key.to_string(),
        line,
        value,
    };
    let fm = Frontmatter {
        present: true,
        end_line: 6,
        fields: vec![
            field("a", 2, Value::Scalar("x".to_string())),
            field("b", 3, Value::Strings(vec!["y".to_string()])),
            field("c", 4, Value::Mapping),
            field("d", 5, Value::Other),
        ],
    };
    let keys = ["a", "b", "c", "d", "e"];
    let lines: Vec<usize> = keys.iter().map(|k| fm.line(k)).collect();
    assert_eq!(lines, vec![2, 3, 4, 5, 0]);
    let has: Vec<bool> = keys.iter().map(|k| fm.has(k)).collect();
    assert_eq!(has, vec![true, true, true, true, false]);
    let lists: Vec<bool> = keys.iter().map(|k| fm.is_string_slice(k)).collect();
    assert_eq!(lists, vec![true, true, false, false, false]);
    assert_eq!(fm.string("a"), Some("x".to_string()));
    assert_eq!(fm.string("b"), None);
    assert!(matches!(fm.node("c"), Some(Value::Mapping)));
    assert!(fm.node("e").is_none());
}

#[test]
fn zero_is_zero() {
    assert!(is_zero(&0));
    assert!(!is_zero(&1));
}
