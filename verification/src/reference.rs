//! File references in a line of markdown.
use crate::patterns::{
    ascii_letter, code_spans, has_scheme, has_uri_scheme, link_groups, links, scheme_at,
    scheme_char, span_groups,
};
use crate::text::{
    before_any, contains_text, contains_white_space, find_any, find_last, has_any, has_white_space,
    last_of, law_before_any, law_trimming, law_trimming_is_idempotent, lemma_last_of,
    lemma_last_of_is, starts_with, texts, to_chars, trim, trimmed, white_space,
};
use vstd::prelude::*;

verus! {

/// `s` without the angle brackets of `<target>`, and without what follows
/// them; `s` itself where it does not start with such a bracketed target.
pub open spec fn unbracketed(s: Seq<char>) -> Seq<char> {
    if s.len() > 0 && s[0] == '<' && has_any(s.drop_first(), ">"@) {
        before_any(s.drop_first(), ">"@)
    } else {
        s
    }
}

/// What a link's parentheses name, without the white space around it, its
/// angle brackets and its title.
pub open spec fn link_destination(raw: Seq<char>) -> Seq<char> {
    before_any(unbracketed(trimmed(raw)), " \t"@)
}

/// Whether a link's destination is for a browser: empty, an in-page anchor, or
/// a URL with a scheme or a host.
pub open spec fn for_browser(destination: Seq<char>) -> bool {
    ||| destination.len() == 0
    ||| destination[0] == '#'
    ||| has_scheme(destination)
    ||| "//"@.is_prefix_of(destination)
}

/// The file path that a markdown link points at: its destination without
/// fragment and query, where that is a relative path without a placeholder.
pub open spec fn link_target(raw: Seq<char>) -> Option<Seq<char>> {
    let destination = link_destination(raw);
    let path = before_any(destination, "#?"@);
    if for_browser(destination) || path.len() == 0 || path[0] == '/' || has_any(path, "{}$*"@) {
        None
    } else {
        Some(path)
    }
}

/// Whether `c` is an ASCII letter or digit.
pub open spec fn ascii_alphanumeric(c: char) -> bool {
    ascii_letter(c) || '0' <= c <= '9'
}

/// What follows the last `/` of `s`; `s` itself where it has none.
pub open spec fn last_segment(s: Seq<char>) -> Seq<char> {
    s.skip(last_of(s, '/') + 1)
}

/// Whether `s` ends in a file extension: a dot with at least one ASCII letter
/// or digit and nothing else behind it.
pub open spec fn has_extension(s: Seq<char>) -> bool {
    let dot = last_of(s, '.');
    &&& 0 <= dot < s.len() - 1
    &&& forall|i: int| dot < i < s.len() ==> ascii_alphanumeric(#[trigger] s[i])
}

/// The file path in an inline code span, where the span is clearly a relative
/// file reference: a single token that starts with `./` or `../`, has no
/// placeholder, fragment or query, and ends in a file extension.
pub open spec fn code_span_target(raw: Seq<char>) -> Option<Seq<char>> {
    let target = trimmed(raw);
    if target.len() > 0 && !has_white_space(target) && ("./"@.is_prefix_of(target)
        || "../"@.is_prefix_of(target)) && !has_any(target, "{}$*#?"@) && has_extension(
        last_segment(target),
    ) {
        Some(target)
    } else {
        None
    }
}

/// The targets among what the links' parentheses hold, in order.
pub open spec fn link_targets(groups: Seq<Seq<char>>) -> Seq<Seq<char>>
    decreases groups.len(),
{
    if groups.len() == 0 {
        seq![]
    } else {
        let front = link_targets(groups.drop_last());
        match link_target(groups.last()) {
            Some(target) => front.push(target),
            None => front,
        }
    }
}

/// `targets` and behind them the targets among the code spans, in order, each
/// only where it is not there yet.
pub open spec fn with_span_targets(targets: Seq<Seq<char>>, groups: Seq<Seq<char>>) -> Seq<
    Seq<char>,
>
    decreases groups.len(),
{
    if groups.len() == 0 {
        targets
    } else {
        let front = with_span_targets(targets, groups.drop_last());
        match code_span_target(groups.last()) {
            Some(target) => if front.contains(target) {
                front
            } else {
                front.push(target)
            },
            None => front,
        }
    }
}

/// The file paths that a line refers to: those of its links, then those of its
/// code spans that are not among them already.
pub open spec fn line_targets(line: Seq<char>) -> Seq<Seq<char>> {
    with_span_targets(link_targets(link_groups(line, 0)), span_groups(line, 0))
}

/// Extracts the file path a markdown link points at, or `None` when the link
/// is not a checkable local file reference: an absolute URL, an in-page
/// anchor, an absolute path, or a templated placeholder.
pub fn link_target_path(raw: &str) -> (r: Option<String>)
    ensures
        match r {
            Some(path) => link_target(raw@) == Some(path@),
            None => link_target(raw@) is None,
        },
{
    let mut target: &str = trim(raw);
    let ghost whole = target@;
    if starts_with(target, "<") {
        proof {
            reveal_strlit("<");
            assert("<"@ =~= seq!['<']);
            assert(whole.subrange(0, 1)[0] == '<');
        }
        let rest: &str = target.substring_char(1, target.unicode_len());
        assert(rest@ =~= whole.drop_first());
        let end: usize = find_any(rest, ">");
        if end < rest.unicode_len() {
            target = rest.substring_char(0, end);
            assert(target@ =~= before_any(rest@, ">"@));
        }
    } else {
        proof {
            reveal_strlit("<");
            if whole.len() > 0 && whole[0] == '<' {
                assert(whole.subrange(0, 1) =~= "<"@);
            }
        }
    }
    assert(target@ == unbracketed(whole));
    let end: usize = find_any(target, " \t");
    let destination: &str = target.substring_char(0, end);
    assert(destination@ =~= link_destination(raw@));
    if destination.is_empty() || destination.get_char(0) == '#' {
        return None;
    }
    if has_uri_scheme(destination) || starts_with(destination, "//") {
        return None;
    }
    let end: usize = find_any(destination, "#?");
    let path: &str = destination.substring_char(0, end);
    assert(path@ =~= before_any(destination@, "#?"@));
    if path.is_empty() || path.get_char(0) == '/' || find_any(path, "{}$*") < path.unicode_len() {
        return None;
    }
    Some(path.to_owned())
}

/// Reports whether `s` ends in a file extension.
fn ends_in_extension(s: &str) -> (r: bool)
    ensures
        r == has_extension(s@),
{
    let chars: Vec<char> = to_chars(s);
    let dot: usize = match find_last(s, '.') {
        Some(n) => n,
        None => {
            return false;
        },
    };
    if dot >= chars.len() - 1 {
        return false;
    }
    let mut i: usize = dot + 1;
    while i < chars.len()
        invariant
            dot < i <= chars.len(),
            chars@ == s@,
            dot == last_of(s@, '.'),
            dot + 1 < s@.len(),
            forall|j: int| dot < j < i ==> ascii_alphanumeric(#[trigger] s@[j]),
        decreases chars.len() - i,
    {
        let c: char = chars[i];
        if !(('a' <= c && c <= 'z') || ('A' <= c && c <= 'Z') || ('0' <= c && c <= '9')) {
            assert(!ascii_alphanumeric(s@[i as int]));
            return false;
        }
        i += 1;
    }
    true
}

/// Extracts a checkable file path from an inline code span, or `None` when
/// the span is not clearly a relative file reference. Narrowly scoped to
/// avoid false positives on flags, identifiers, and shell snippets: the span
/// must be a single whitespace-free token starting with `./` or `../` and
/// ending in a file extension.
pub fn code_span_target_path(raw: &str) -> (r: Option<String>)
    ensures
        match r {
            Some(path) => code_span_target(raw@) == Some(path@),
            None => code_span_target(raw@) is None,
        },
{
    let target: &str = trim(raw);
    if target.is_empty() || contains_white_space(target) {
        return None;
    }
    if !(starts_with(target, "./") || starts_with(target, "../")) {
        return None;
    }
    let len: usize = target.unicode_len();
    if find_any(target, "{}$*#?") < len {
        return None;
    }
    let start: usize = match find_last(target, '/') {
        Some(n) => n + 1,
        None => 0,
    };
    let segment: &str = target.substring_char(start, len);
    assert(segment@ =~= last_segment(target@));
    if !ends_in_extension(segment) {
        return None;
    }
    Some(target.to_owned())
}

/// Collects the file paths that a line refers to.
pub fn targets_in_line(line: &str) -> (r: Vec<String>)
    ensures
        texts(r@) == line_targets(line@),
{
    let mut targets: Vec<String> = Vec::new();
    let held: Vec<String> = links(line);
    let ghost groups = link_groups(line@, 0);
    let mut i: usize = 0;
    assert(texts(targets@) =~= link_targets(groups.take(0)));
    while i < held.len()
        invariant
            i <= held.len(),
            texts(held@) == groups,
            texts(targets@) == link_targets(groups.take(i as int)),
        decreases held.len() - i,
    {
        let ghost before = texts(targets@);
        proof {
            assert(groups[i as int] == held@[i as int]@);
            assert(groups.take(i + 1).drop_last() =~= groups.take(i as int));
        }
        match link_target_path(held[i].as_str()) {
            Some(target) => {
                targets.push(target);
                assert(texts(targets@) =~= before.push(target@));
            },
            None => {},
        }
        i += 1;
    }
    assert(groups.take(i as int) =~= groups);
    let spans: Vec<String> = code_spans(line);
    let ghost linked = texts(targets@);
    let ghost groups = span_groups(line@, 0);
    let mut i: usize = 0;
    assert(with_span_targets(linked, groups.take(0)) =~= linked);
    while i < spans.len()
        invariant
            i <= spans.len(),
            texts(spans@) == groups,
            texts(targets@) == with_span_targets(linked, groups.take(i as int)),
        decreases spans.len() - i,
    {
        let ghost before = texts(targets@);
        proof {
            assert(groups[i as int] == spans@[i as int]@);
            assert(groups.take(i + 1).drop_last() =~= groups.take(i as int));
        }
        match code_span_target_path(spans[i].as_str()) {
            Some(target) => {
                if !contains_text(&targets, target.as_str()) {
                    targets.push(target);
                    assert(texts(targets@) =~= before.push(target@));
                }
            },
            None => {},
        }
        i += 1;
    }
    assert(groups.take(i as int) =~= groups);
    targets
}

/// Targets that are there already stay in front, whatever code spans follow.
proof fn lemma_with_span_targets_extends(targets: Seq<Seq<char>>, groups: Seq<Seq<char>>)
    ensures
        targets.is_prefix_of(with_span_targets(targets, groups)),
    decreases groups.len(),
{
    if groups.len() > 0 {
        lemma_with_span_targets_extends(targets, groups.drop_last());
    } else {
        assert(targets.subrange(0, targets.len() as int) =~= targets);
    }
}

/// A code span that names a target that a link on the line names as well adds
/// nothing: the target is reported once, not twice.
pub proof fn law_span_repeats_nothing(
    targets: Seq<Seq<char>>,
    groups: Seq<Seq<char>>,
    group: Seq<char>,
)
    requires
        code_span_target(group) matches Some(target) ==> targets.contains(target),
    ensures
        with_span_targets(targets, groups.push(group)) == with_span_targets(targets, groups),
{
    assert(groups.push(group).drop_last() =~= groups);
    lemma_with_span_targets_extends(targets, groups);
    let front = with_span_targets(targets, groups);
    match code_span_target(group) {
        Some(target) => {
            let i = choose|i: int| 0 <= i < targets.len() && targets[i] == target;
            assert(front.subrange(0, targets.len() as int)[i] == target);
            assert(front[i] == target);
        },
        None => {},
    }
}

/// A target is a relative path: it never starts at the root directory, and it
/// never holds a placeholder.
pub proof fn law_targets_are_relative(raw: Seq<char>)
    ensures
        link_target(raw) matches Some(path) ==> path.len() > 0 && path[0] != '/' && !has_any(
            path,
            "{}$*"@,
        ),
        code_span_target(raw) matches Some(path) ==> path.len() > 0 && path[0] == '.' && !has_any(
            path,
            "{}$*#?"@,
        ),
{
    reveal_strlit("./");
    reveal_strlit("../");
    if let Some(path) = code_span_target(raw) {
        if "./"@.is_prefix_of(path) {
            assert(path.subrange(0, 2)[0] == '.');
        } else {
            assert(path.subrange(0, 3)[0] == '.');
        }
    }
}

/// What the sets of characters hold that targets are searched for.
proof fn lemma_sets()
    ensures
        forall|c: char| #[trigger] ">"@.contains(c) <==> c == '>',
        forall|c: char| #[trigger] " \t"@.contains(c) <==> c == ' ' || c == '\t',
        forall|c: char| #[trigger] "#?"@.contains(c) <==> c == '#' || c == '?',
        forall|c: char| #[trigger]
            "{}$*"@.contains(c) <==> c == '{' || c == '}' || c == '$' || c == '*',
        forall|c: char| #[trigger]
            "{}$*#?"@.contains(c) <==> c == '{' || c == '}' || c == '$' || c == '*' || c == '#'
                || c == '?',
{
    reveal_strlit(">");
    reveal_strlit(" \t");
    reveal_strlit("#?");
    reveal_strlit("{}$*");
    reveal_strlit("{}$*#?");
    assert(">"@ =~= seq!['>']);
    assert(" \t"@ =~= seq![' ', '\t']);
    assert("#?"@ =~= seq!['#', '?']);
    assert("{}$*"@ =~= seq!['{', '}', '$', '*']);
    assert("{}$*#?"@ =~= seq!['{', '}', '$', '*', '#', '?']);
    assert(">"@[0] == '>');
    assert(" \t"@[0] == ' ' && " \t"@[1] == '\t');
    assert("#?"@[0] == '#' && "#?"@[1] == '?');
    assert("{}$*"@[0] == '{' && "{}$*"@[1] == '}' && "{}$*"@[2] == '$' && "{}$*"@[3] == '*');
    assert("{}$*#?"@[0] == '{' && "{}$*#?"@[1] == '}' && "{}$*#?"@[2] == '$' && "{}$*#?"@[3] == '*'
        && "{}$*#?"@[4] == '#' && "{}$*#?"@[5] == '?');
}

/// A fragment or a query is no part of a URL's scheme.
proof fn lemma_scheme_before(path: Seq<char>, rest: Seq<char>)
    requires
        rest.len() > 0 ==> rest[0] == '#' || rest[0] == '?',
    ensures
        has_scheme(path + rest) <==> has_scheme(path),
{
    let s = path + rest;
    if has_scheme(s) {
        let n = choose|n: int| scheme_at(s, n);
        if n >= path.len() {
            if path.len() == 0 {
                assert(s[0] == rest[0]);
            } else {
                assert(s[path.len() as int] == rest[0]);
                if n > path.len() {
                    assert(scheme_char(s[path.len() as int]));
                }
            }
        }
        assert forall|i: int| 0 < i < n implies scheme_char(#[trigger] path[i]) by {
            assert(s[i] == path[i]);
        }
        assert(s[n] == path[n] && s[0] == path[0]);
        assert(scheme_at(path, n));
    }
    if has_scheme(path) {
        let n = choose|n: int| scheme_at(path, n);
        assert forall|i: int| 0 < i < n implies scheme_char(#[trigger] s[i]) by {
            assert(s[i] == path[i]);
        }
        assert(scheme_at(s, n));
    }
}

/// What a link without a title points at: the path in front of its fragment or
/// query, unless that is empty, absolute, behind a URI scheme or has a
/// placeholder in it.
pub proof fn law_link_to_path(path: Seq<char>, rest: Seq<char>)
    requires
        forall|i: int| 0 <= i < path.len() ==> #[trigger] path[i] != '#' && path[i] != '?',
        rest.len() > 0 ==> rest[0] == '#' || rest[0] == '?',
        forall|i: int|
            0 <= i < (path + rest).len() ==> #[trigger] (path + rest)[i] != ' ' && (path + rest)[i]
                != '\t',
        path + rest == trimmed(path + rest),
        path.len() > 0 && path[0] == '<' ==> !(path + rest).contains('>'),
    ensures
        link_target(path + rest) == if path.len() == 0 || path[0] == '/' || has_scheme(path)
            || path.contains('{') || path.contains('}') || path.contains('$') || path.contains('*') {
            None
        } else {
            Some(path)
        },
{
    lemma_sets();
    reveal_strlit("//");
    let all = path + rest;
    let none = Seq::<char>::empty();
    let inner = all.drop_first();
    if all.len() > 0 && all[0] == '<' {
        if path.len() == 0 {
            assert(all[0] == rest[0]);
        }
        if has_any(inner, ">"@) {
            let i = choose|i: int| 0 <= i < inner.len() && ">"@.contains(#[trigger] inner[i]);
            assert(all[i + 1] == '>');
        }
    }
    assert(unbracketed(all) == all);
    assert(all + none =~= all);
    law_before_any(all, none, " \t"@);
    law_before_any(path, rest, "#?"@);
    lemma_scheme_before(path, rest);
    if "//"@.is_prefix_of(all) {
        assert(all.subrange(0, 2)[0] == '/');
        if path.len() == 0 {
            assert(all[0] == rest[0]);
        }
    }
    if all.len() > 0 && path.len() > 0 {
        assert(all[0] == path[0]);
    }
    let held = path.contains('{') || path.contains('}') || path.contains('$') || path.contains('*');
    if has_any(path, "{}$*"@) {
        let i = choose|i: int| 0 <= i < path.len() && "{}$*"@.contains(#[trigger] path[i]);
        assert(path.contains(path[i]));
    }
    if held {
        let c = if path.contains('{') {
            '{'
        } else if path.contains('}') {
            '}'
        } else if path.contains('$') {
            '$'
        } else {
            '*'
        };
        let i = choose|i: int| 0 <= i < path.len() && path[i] == c;
        assert("{}$*"@.contains(path[i]));
    }
}

/// White space around a link's target does not change what it points at.
pub proof fn law_link_white_space(raw: Seq<char>)
    ensures
        link_target(raw) == link_target(trimmed(raw)),
{
    law_trimming_is_idempotent(raw);
}

/// A title behind a space or a tab does not change what a link points at.
pub proof fn law_link_title(destination: Seq<char>, space: char, title: Seq<char>)
    requires
        destination.len() > 0,
        destination == trimmed(destination),
        forall|i: int|
            0 <= i < destination.len() ==> #[trigger] destination[i] != ' ' && destination[i] != '\t',
        space == ' ' || space == '\t',
        title == trimmed(title),
        title.len() > 0,
        destination[0] == '<' ==> !destination.contains('>') && !title.contains('>'),
    ensures
        link_target(destination + seq![space] + title) == link_target(destination),
{
    lemma_sets();
    law_trimming_is_idempotent(destination);
    law_trimming_is_idempotent(title);
    let none = Seq::<char>::empty();
    let titled = destination + seq![space] + title;
    law_trimming(none, titled, none);
    assert(none + titled + none =~= titled);
    if destination[0] == '<' {
        lemma_no_bracket(destination);
        assert(!titled.contains('>')) by {
            if titled.contains('>') {
                let i = choose|i: int| 0 <= i < titled.len() && titled[i] == '>';
                if i < destination.len() {
                    assert(destination[i] == '>');
                } else if i > destination.len() {
                    assert(title[i - destination.len() - 1] == '>');
                }
            }
        }
        lemma_no_bracket(titled);
    }
    assert(destination + none =~= destination);
    law_before_any(destination, none, " \t"@);
    assert(titled =~= destination + (seq![space] + title));
    law_before_any(destination, seq![space] + title, " \t"@);
    assert(link_destination(destination) == destination);
    assert(link_destination(titled) == destination);
}

proof fn lemma_no_bracket(s: Seq<char>)
    requires
        !s.contains('>'),
    ensures
        unbracketed(s) == s,
{
    lemma_sets();
    let inner = s.drop_first();
    if s.len() > 0 && has_any(inner, ">"@) {
        let i = choose|i: int| 0 <= i < inner.len() && ">"@.contains(#[trigger] inner[i]);
        assert(s[i + 1] == '>');
    }
}

/// Angle brackets around a link's target, and whatever follows them, do not
/// change what it points at; a space or a tab at once behind the opening one
/// leaves no target.
pub proof fn law_link_brackets(inner: Seq<char>, behind: Seq<char>)
    requires
        !inner.contains('>'),
        behind == trimmed(behind),
    ensures
        inner == trimmed(inner) ==> link_target(seq!['<'] + inner + seq!['>'] + behind)
            == link_target(inner),
        inner.len() > 0 && (inner[0] == ' ' || inner[0] == '\t') ==> link_target(
            seq!['<'] + inner + seq!['>'] + behind,
        ) is None,
{
    lemma_sets();
    law_trimming_is_idempotent(behind);
    let none = Seq::<char>::empty();
    let wrapped = seq!['<'] + inner + seq!['>'] + behind;
    assert(!white_space('<') && !white_space('>'));
    if behind.len() > 0 {
        assert(wrapped[wrapped.len() - 1] == behind[behind.len() - 1]);
    } else {
        assert(wrapped[wrapped.len() - 1] == '>');
    }
    law_trimming(none, wrapped, none);
    assert(none + wrapped + none =~= wrapped);
    assert(wrapped.drop_first() =~= inner + (seq!['>'] + behind));
    assert forall|i: int| 0 <= i < inner.len() implies !">"@.contains(#[trigger] inner[i]) by {
        assert(inner.contains(inner[i]));
    }
    law_before_any(inner, seq!['>'] + behind, ">"@);
    assert(unbracketed(wrapped) == inner);
    lemma_no_bracket(inner);
    if inner.len() > 0 && (inner[0] == ' ' || inner[0] == '\t') {
        assert(none + inner =~= inner);
        law_before_any(none, inner, " \t"@);
    }
}

/// Which code spans are file references, and to what: a span that, without the
/// white space around it, starts with `./` or `../`, ends in a dot with ASCII
/// letters and digits behind it, and has no white space, placeholder, fragment
/// or query in it.
pub proof fn law_span_to_path(raw: Seq<char>)
    ensures
        code_span_target(raw) matches Some(target) ==> target == trimmed(raw),
        code_span_target(raw) is Some <==> {
            let s = trimmed(raw);
            &&& "./"@.is_prefix_of(s) || "../"@.is_prefix_of(s)
            &&& forall|i: int|
                0 <= i < s.len() ==> {
                    let c = #[trigger] s[i];
                    !white_space(c) && c != '{' && c != '}' && c != '$' && c != '*' && c != '#' && c
                        != '?'
                }
            &&& exists|dot: int|
                0 <= dot < s.len() - 1 && #[trigger] s[dot] == '.' && forall|i: int|
                    dot < i < s.len() ==> {
                        let c = #[trigger] s[i];
                        'a' <= c <= 'z' || 'A' <= c <= 'Z' || '0' <= c <= '9'
                    }
        },
{
    lemma_sets();
    let s = trimmed(raw);
    let slash = last_of(s, '/');
    lemma_last_of(s, '/');
    let name = last_segment(s);
    let dot = last_of(name, '.');
    lemma_last_of(name, '.');
    assert(name.len() == s.len() - slash - 1);
    if has_extension(name) {
        let at = slash + 1 + dot;
        assert(s[at] == name[dot]);
        assert forall|i: int| at < i < s.len() implies ascii_alphanumeric(#[trigger] s[i]) by {
            assert(s[i] == name[i - slash - 1]);
        }
    }
    if exists|dot: int|
        0 <= dot < s.len() - 1 && #[trigger] s[dot] == '.' && forall|i: int|
            dot < i < s.len() ==> ascii_alphanumeric(#[trigger] s[i]) {
        let at = choose|dot: int|
            0 <= dot < s.len() - 1 && #[trigger] s[dot] == '.' && forall|i: int|
                dot < i < s.len() ==> ascii_alphanumeric(#[trigger] s[i]);
        if slash > at {
            assert(ascii_alphanumeric(s[slash]));
        }
        assert(slash < at);
        let k = at - slash - 1;
        assert(name[k] == s[at]);
        assert forall|i: int| k < i < name.len() implies ascii_alphanumeric(#[trigger] name[i]) by {
            assert(name[i] == s[i + slash + 1]);
        }
        assert forall|i: int| k < i < name.len() implies #[trigger] name[i] != '.' by {
            assert(ascii_alphanumeric(name[i]));
        }
        lemma_last_of_is(name, '.', k);
        assert(has_extension(name));
    }
    if "./"@.is_prefix_of(s) || "../"@.is_prefix_of(s) {
        reveal_strlit("./");
        reveal_strlit("../");
        assert(s.len() > 0);
    }
    assert(has_any(s, "{}$*#?"@) <==> exists|i: int|
        0 <= i < s.len() && "{}$*#?"@.contains(#[trigger] s[i]));
}

/// The targets of links are those of each link in turn, without the links that
/// have none.
pub proof fn law_link_targets_in_order(groups: Seq<Seq<char>>)
    ensures
        link_targets(groups) == groups.map_values(|g: Seq<char>| link_target(g)).filter(
            |t: Option<Seq<char>>| t is Some,
        ).map_values(|t: Option<Seq<char>>| t->0),
    decreases groups.len(),
{
    reveal(Seq::filter);
    let each = |g: Seq<char>| link_target(g);
    let some = |t: Option<Seq<char>>| t is Some;
    let held = |t: Option<Seq<char>>| t->0;
    if groups.len() > 0 {
        let front = groups.drop_last();
        law_link_targets_in_order(front);
        assert(groups.map_values(each).drop_last() =~= front.map_values(each));
    }
    assert(link_targets(groups) =~= groups.map_values(each).filter(some).map_values(held));
}

/// A code span whose target is not there yet adds it, behind all others.
pub proof fn law_span_adds_target(
    targets: Seq<Seq<char>>,
    groups: Seq<Seq<char>>,
    group: Seq<char>,
    target: Seq<char>,
)
    requires
        code_span_target(group) == Some(target),
        !targets.contains(target),
        forall|i: int|
            0 <= i < groups.len() ==> code_span_target(#[trigger] groups[i]) != Some(target),
    ensures
        with_span_targets(targets, groups.push(group)) == with_span_targets(targets, groups).push(
            target,
        ),
{
    assert(groups.push(group).drop_last() =~= groups);
    lemma_span_targets(targets, groups);
    let front = with_span_targets(targets, groups);
    if front.contains(target) {
        let k = choose|k: int| 0 <= k < front.len() && front[k] == target;
        if k < targets.len() {
            assert(targets[k] == target);
        } else {
            let i = choose|i: int|
                0 <= i < groups.len() && code_span_target(#[trigger] groups[i]) == Some(front[k]);
            assert(false);
        }
    }
}

/// What code spans add to targets: each of theirs, and nothing else, once.
proof fn lemma_span_targets(targets: Seq<Seq<char>>, groups: Seq<Seq<char>>)
    ensures
        ({
            let out = with_span_targets(targets, groups);
            &&& targets.len() <= out.len()
            &&& forall|k: int| 0 <= k < targets.len() ==> #[trigger] out[k] == targets[k]
            &&& forall|k: int|
                targets.len() <= k < out.len() ==> exists|i: int|
                    0 <= i < groups.len() && code_span_target(#[trigger] groups[i]) == Some(
                        #[trigger] out[k],
                    )
            &&& forall|j: int, k: int|
                0 <= j < k < out.len() && targets.len() <= k ==> #[trigger] out[j]
                    != #[trigger] out[k]
            &&& forall|i: int|
                0 <= i < groups.len() ==> (code_span_target(#[trigger] groups[i]) matches Some(t)
                    ==> out.contains(t))
        }),
    decreases groups.len(),
{
    let out = with_span_targets(targets, groups);
    if groups.len() > 0 {
        let front = groups.drop_last();
        let before = with_span_targets(targets, front);
        lemma_span_targets(targets, front);
        assert(groups[groups.len() - 1] == groups.last());
        assert forall|k: int| targets.len() <= k < out.len() implies exists|i: int|
            0 <= i < groups.len() && code_span_target(#[trigger] groups[i]) == Some(
                #[trigger] out[k],
            ) by {
            if k < before.len() {
                assert(out[k] == before[k]);
                let i = choose|i: int|
                    0 <= i < front.len() && code_span_target(#[trigger] front[i]) == Some(before[k]);
                assert(groups[i] == front[i]);
            } else {
                assert(code_span_target(groups[groups.len() - 1]) == Some(out[k]));
            }
        }
        assert forall|j: int, k: int|
            0 <= j < k < out.len() && targets.len() <= k implies #[trigger] out[j]
            != #[trigger] out[k] by {
            if k < before.len() {
                assert(out[j] == before[j] && out[k] == before[k]);
            } else {
                assert(out[j] == before[j]);
                assert(before.contains(before[j]));
            }
        }
        assert forall|i: int| 0 <= i < groups.len() implies (code_span_target(
            #[trigger] groups[i],
        ) matches Some(t) ==> out.contains(t)) by {
            if let Some(t) = code_span_target(groups[i]) {
                if i < front.len() {
                    assert(front[i] == groups[i]);
                    let k = choose|k: int| 0 <= k < before.len() && before[k] == t;
                    assert(out[k] == t);
                } else if before.contains(t) {
                    assert(out == before);
                } else {
                    assert(out[before.len() as int] == t);
                }
            }
        }
    }
}

/// What a line refers to, all of it and nothing else: first the targets of its
/// links, in order, then those of its code spans, each of these only where
/// nothing before it is the same.
pub proof fn law_line_targets(line: Seq<char>)
    ensures
        ({
            let out = line_targets(line);
            let linked = link_groups(line, 0).map_values(|g: Seq<char>| link_target(g)).filter(
                |t: Option<Seq<char>>| t is Some,
            ).map_values(|t: Option<Seq<char>>| t->0);
            let spans = span_groups(line, 0);
            &&& linked.is_prefix_of(out)
            &&& forall|k: int|
                linked.len() <= k < out.len() ==> exists|i: int|
                    0 <= i < spans.len() && code_span_target(#[trigger] spans[i]) == Some(
                        #[trigger] out[k],
                    )
            &&& forall|j: int, k: int|
                0 <= j < k < out.len() && linked.len() <= k ==> #[trigger] out[j]
                    != #[trigger] out[k]
        }),
        forall|i: int|
            0 <= i < span_groups(line, 0).len() ==> (code_span_target(
                #[trigger] span_groups(line, 0)[i],
            ) matches Some(t) ==> line_targets(line).contains(t)),
        forall|i: int|
            0 <= i < link_groups(line, 0).len() ==> (link_target(
                #[trigger] link_groups(line, 0)[i],
            ) matches Some(t) ==> line_targets(line).contains(t)),
{
    let groups = link_groups(line, 0);
    let linked = link_targets(groups);
    let out = line_targets(line);
    law_link_targets_in_order(groups);
    lemma_span_targets(linked, span_groups(line, 0));
    assert(out.subrange(0, linked.len() as int) =~= linked);
    assert forall|i: int| 0 <= i < groups.len() implies (link_target(
        #[trigger] groups[i],
    ) matches Some(t) ==> out.contains(t)) by {
        if let Some(t) = link_target(groups[i]) {
            let k = lemma_link_target_there(groups, i);
            assert(out[k] == t);
        }
    }
}

proof fn lemma_link_target_there(groups: Seq<Seq<char>>, i: int) -> (k: int)
    requires
        0 <= i < groups.len(),
        link_target(groups[i]) is Some,
    ensures
        0 <= k < link_targets(groups).len(),
        Some(link_targets(groups)[k]) == link_target(groups[i]),
    decreases groups.len(),
{
    let front = groups.drop_last();
    if i < front.len() {
        assert(front[i] == groups[i]);
        let k = lemma_link_target_there(front, i);
        assert(link_targets(groups)[k] == link_targets(front)[k]);
        k
    } else {
        link_targets(front).len() as int
    }
}

/// The targets that code spans add come in the order of the spans: where one
/// comes before another, no span names the other before some span has named the
/// one.
pub proof fn law_span_targets_in_order(
    targets: Seq<Seq<char>>,
    groups: Seq<Seq<char>>,
    j: int,
    k: int,
    p: int,
) -> (q: int)
    requires
        targets.len() <= j < k < with_span_targets(targets, groups).len(),
        0 <= p < groups.len(),
        code_span_target(groups[p]) == Some(with_span_targets(targets, groups)[k]),
    ensures
        0 <= q < p,
        code_span_target(groups[q]) == Some(with_span_targets(targets, groups)[j]),
    decreases groups.len(),
{
    let out = with_span_targets(targets, groups);
    let front = groups.drop_last();
    let before = with_span_targets(targets, front);
    lemma_span_targets(targets, front);
    lemma_span_targets(targets, groups);
    assert(out[j] == before[j]);
    if p < front.len() {
        assert(front[p] == groups[p]);
        if k < before.len() {
            assert(out[k] == before[k]);
        } else {
            let i = choose|i: int| 0 <= i < before.len() && before[i] == out[k];
            assert(out[i] == before[i]);
        }
        let q = law_span_targets_in_order(targets, front, j, k, p);
        assert(groups[q] == front[q]);
        q
    } else {
        let q = choose|q: int|
            0 <= q < front.len() && code_span_target(#[trigger] front[q]) == Some(before[j]);
        assert(groups[q] == front[q]);
        q
    }
}

} // verus!
