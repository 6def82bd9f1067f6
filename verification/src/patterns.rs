//! The regular expressions that the rules are written with, and what each of
//! them finds.
use crate::text::{contains_char, last_of, lemma_last_of, split_by, texts};
use regex::Regex;
use vstd::prelude::*;

verus! {

/// The naming rule: lowercase alphanumerics in hyphen-separated segments.
pub const NAME_PATTERN: &'static str = r"^[a-z0-9]+(?:-[a-z0-9]+)*$";

/// An absolute URI's scheme (`https://`, `mailto:`, `tel:`, and the like), so
/// that such a target is left for a browser rather than checked as a file.
pub const URI_SCHEME_PATTERN: &'static str = r"^[a-zA-Z][a-zA-Z0-9+.-]*:";

/// Inline markdown links and images: `[text](target)` or `![alt](target)`.
/// Does not handle reference-style links (`[text][ref]`).
pub const LINK_PATTERN: &'static str = r"!?\[[^\]]*\]\(([^)]+)\)";

/// Inline code spans: `` `text` ``.
pub const CODE_SPAN_PATTERN: &'static str = r"`([^`]+)`";

/// Whether `c` is a lowercase letter `a` to `z` or a digit.
pub open spec fn name_char(c: char) -> bool {
    'a' <= c <= 'z' || '0' <= c <= '9'
}

/// Whether `s` is a well-formed name: non-empty, made of lowercase letters,
/// digits and hyphens, with no hyphen at either end and none next to another.
pub open spec fn name_format(s: Seq<char>) -> bool {
    &&& s.len() > 0
    &&& forall|i: int| 0 <= i < s.len() ==> name_char(#[trigger] s[i]) || s[i] == '-'
    &&& s[0] != '-'
    &&& s[s.len() - 1] != '-'
    &&& forall|i: int| 0 <= i < s.len() - 1 && #[trigger] s[i] == '-' ==> s[i + 1] != '-'
}

/// Whether `c` is an ASCII letter.
pub open spec fn ascii_letter(c: char) -> bool {
    'a' <= c <= 'z' || 'A' <= c <= 'Z'
}

/// Whether `c` may follow the first letter of a URI scheme.
pub open spec fn scheme_char(c: char) -> bool {
    ascii_letter(c) || '0' <= c <= '9' || c == '+' || c == '.' || c == '-'
}

/// Whether the first `n` characters of `s` are a URI scheme with a colon
/// behind it.
pub open spec fn scheme_at(s: Seq<char>, n: int) -> bool {
    &&& 0 < n < s.len()
    &&& s[n] == ':'
    &&& ascii_letter(s[0])
    &&& forall|i: int| 0 < i < n ==> scheme_char(#[trigger] s[i])
}

/// Whether `s` starts with a URI scheme and its colon.
pub open spec fn has_scheme(s: Seq<char>) -> bool {
    exists|n: int| scheme_at(s, n)
}

/// The first position of `c` in `s` from `from` on, or the length of `s`.
pub open spec fn next_of(s: Seq<char>, c: char, from: int) -> int
    decreases s.len() - from,
{
    if from < 0 || from >= s.len() {
        s.len() as int
    } else if s[from] == c {
        from
    } else {
        next_of(s, c, from + 1)
    }
}

/// Where the target of the markdown link that starts with the `[` at `i`
/// begins and ends, if a link starts there: the text runs to the next `]`,
/// a `(` follows at once, and the target, which is not empty, runs to the next
/// `)`.
pub open spec fn link_at(s: Seq<char>, i: int) -> Option<(int, int)> {
    let close = next_of(s, ']', i + 1);
    let end = next_of(s, ')', close + 2);
    if s[i] == '[' && close + 2 < end < s.len() && s[close + 1] == '(' {
        Some((close + 2, end))
    } else {
        None
    }
}

/// The targets of the markdown links in `s` from `from` on, from left to
/// right, each looked for behind the one before.
pub open spec fn link_groups(s: Seq<char>, from: int) -> Seq<Seq<char>>
    decreases s.len() - from,
{
    if from < 0 || from >= s.len() {
        seq![]
    } else {
        match link_at(s, from) {
            Some((start, end)) => {
                proof {
                    lemma_next_of(s, ']', from + 1);
                }
                seq![s.subrange(start, end)] + link_groups(s, end + 1)
            },
            None => link_groups(s, from + 1),
        }
    }
}

/// Where the text of the code span that starts with the backtick at `i`
/// begins and ends, if one starts there: it is not empty and runs to the next
/// backtick.
pub open spec fn span_at(s: Seq<char>, i: int) -> Option<(int, int)> {
    let end = next_of(s, '`', i + 1);
    if s[i] == '`' && i + 1 < end < s.len() {
        Some((i + 1, end))
    } else {
        None
    }
}

/// The texts of the code spans in `s` from `from` on, from left to right, each
/// looked for behind the one before.
pub open spec fn span_groups(s: Seq<char>, from: int) -> Seq<Seq<char>>
    decreases s.len() - from,
{
    if from < 0 || from >= s.len() {
        seq![]
    } else {
        match span_at(s, from) {
            Some((start, end)) => seq![s.subrange(start, end)] + span_groups(s, end + 1),
            None => span_groups(s, from + 1),
        }
    }
}

pub proof fn lemma_next_of(s: Seq<char>, c: char, from: int)
    requires
        0 <= from <= s.len(),
    ensures
        from <= next_of(s, c, from) <= s.len(),
        next_of(s, c, from) < s.len() ==> s[next_of(s, c, from)] == c,
        forall|i: int| from <= i < next_of(s, c, from) ==> #[trigger] s[i] != c,
    decreases s.len() - from,
{
    if from < s.len() && s[from] != c {
        lemma_next_of(s, c, from + 1);
    }
}

/// A text without `[` has no markdown link.
pub proof fn lemma_no_links(s: Seq<char>, from: int)
    requires
        0 <= from,
        forall|i: int| 0 <= i < s.len() ==> #[trigger] s[i] != '[',
    ensures
        link_groups(s, from) == Seq::<Seq<char>>::empty(),
    decreases s.len() - from,
{
    if from < s.len() {
        lemma_no_links(s, from + 1);
    }
}

/// A text without a backtick has no code span.
pub proof fn lemma_no_spans(s: Seq<char>, from: int)
    requires
        0 <= from,
        forall|i: int| 0 <= i < s.len() ==> #[trigger] s[i] != '`',
    ensures
        span_groups(s, from) == Seq::<Seq<char>>::empty(),
    decreases s.len() - from,
{
    if from < s.len() {
        lemma_no_spans(s, from + 1);
    }
}

/// `regex::Regex::is_match`, on the expression compiled from `pattern`: for
/// [`NAME_PATTERN`] whether all of `text` is a well-formed name, for
/// [`URI_SCHEME_PATTERN`] whether `text` starts with a URI scheme.
#[verifier::external_body]
fn is_match(pattern: &str, text: &str) -> (r: bool)
    requires
        pattern@ == NAME_PATTERN@ || pattern@ == URI_SCHEME_PATTERN@,
    ensures
        pattern@ == NAME_PATTERN@ ==> r == name_format(text@),
        pattern@ == URI_SCHEME_PATTERN@ ==> r == has_scheme(text@),
{
    Regex::new(pattern).unwrap().is_match(text)
}

/// `regex::Regex::captures_iter`, on the expression compiled from `pattern`:
/// the text of the first group of each match, matches taken from left to
/// right without overlap. For [`LINK_PATTERN`] these are the targets of the
/// markdown links in `text`, for [`CODE_SPAN_PATTERN`] the texts of its code
/// spans.
#[verifier::external_body]
fn first_groups(pattern: &str, text: &str) -> (r: Vec<String>)
    requires
        pattern@ == LINK_PATTERN@ || pattern@ == CODE_SPAN_PATTERN@,
    ensures
        pattern@ == LINK_PATTERN@ ==> texts(r@) == link_groups(text@, 0),
        pattern@ == CODE_SPAN_PATTERN@ ==> texts(r@) == span_groups(text@, 0),
{
    let re = Regex::new(pattern).unwrap();
    re.captures_iter(text).map(|caps| caps[1].to_string()).collect()
}

/// Finds what the parentheses of the markdown links in `line` hold.
pub fn links(line: &str) -> (r: Vec<String>)
    ensures
        texts(r@) == link_groups(line@, 0),
{
    // Most lines have no link, and need no expression to tell.
    if !contains_char(line, '[') {
        let none: Vec<String> = Vec::new();
        proof {
            lemma_no_links(line@, 0);
            assert(texts(none@) =~= Seq::empty());
        }
        return none;
    }
    first_groups(LINK_PATTERN, line)
}

/// Finds the texts of the code spans in `line`.
pub fn code_spans(line: &str) -> (r: Vec<String>)
    ensures
        texts(r@) == span_groups(line@, 0),
{
    // Most lines have no code span, and need no expression to tell.
    if !contains_char(line, '`') {
        let none: Vec<String> = Vec::new();
        proof {
            lemma_no_spans(line@, 0);
            assert(texts(none@) =~= Seq::empty());
        }
        return none;
    }
    first_groups(CODE_SPAN_PATTERN, line)
}

/// Reports whether `name` is a well-formed name.
pub fn is_name(name: &str) -> (r: bool)
    ensures
        r == name_format(name@),
{
    is_match(NAME_PATTERN, name)
}

/// Reports whether `target` starts with a URI scheme.
pub fn has_uri_scheme(target: &str) -> (r: bool)
    ensures
        r == has_scheme(target@),
{
    is_match(URI_SCHEME_PATTERN, target)
}

/// Whether `s` is one segment of a name: at least one lowercase letter or
/// digit, and nothing else.
pub open spec fn name_segment(s: Seq<char>) -> bool {
    s.len() > 0 && forall|i: int| 0 <= i < s.len() ==> name_char(#[trigger] s[i])
}

/// A well-formed name is one or more segments with a hyphen between each two.
pub proof fn law_name_is_segments(s: Seq<char>)
    ensures
        name_format(s) <==> forall|i: int|
            0 <= i < split_by(s, '-').len() ==> name_segment(#[trigger] split_by(s, '-')[i]),
    decreases s.len(),
{
    lemma_last_of(s, '-');
    let n = last_of(s, '-');
    let parts = split_by(s, '-');
    if n < 0 {
        assert(parts =~= seq![s]);
        assert(parts[0] == s);
        if name_segment(s) {
            assert forall|i: int| 0 <= i < s.len() implies name_char(#[trigger] s[i]) || s[i] == '-' by {
            }
        }
    } else {
        let front = s.take(n);
        let tail = s.skip(n + 1);
        law_name_is_segments(front);
        let heads = split_by(front, '-');
        assert(parts == heads.push(tail));
        assert(parts[heads.len() as int] == tail);
        if name_format(s) {
            assert forall|i: int| 0 <= i < tail.len() implies name_char(#[trigger] tail[i]) by {
                assert(tail[i] == s[n + 1 + i]);
            }
            assert(n > 0 && n < s.len() - 1);
            assert(s[n - 1] != '-');
            assert(name_format(front)) by {
                assert forall|i: int| 0 <= i < front.len() implies name_char(#[trigger] front[i])
                    || front[i] == '-' by {
                    assert(front[i] == s[i]);
                }
                assert forall|i: int| 0 <= i < front.len() - 1 && #[trigger] front[i]
                    == '-' implies front[i + 1] != '-' by {
                    assert(s[i] == '-');
                }
            }
            assert forall|i: int| 0 <= i < parts.len() implies name_segment(#[trigger] parts[i]) by {
                if i < heads.len() {
                    assert(parts[i] == heads[i]);
                }
            }
        }
        if forall|i: int| 0 <= i < parts.len() ==> name_segment(#[trigger] parts[i]) {
            assert forall|i: int| 0 <= i < heads.len() implies name_segment(#[trigger] heads[i]) by {
                assert(parts[i] == heads[i]);
            }
            assert(name_format(front));
            assert(name_segment(tail));
            assert forall|i: int| 0 <= i < s.len() implies name_char(#[trigger] s[i]) || s[i] == '-' by {
                if i < n {
                    assert(front[i] == s[i]);
                } else if i > n {
                    assert(tail[i - n - 1] == s[i]);
                }
            }
            assert(s[0] == front[0]);
            assert forall|i: int| 0 <= i < s.len() - 1 && #[trigger] s[i] == '-' implies s[i + 1]
                != '-' by {
                if i < n - 1 {
                    assert(front[i] == '-');
                    assert(front[i + 1] == s[i + 1]);
                } else if i == n - 1 {
                    assert(front[front.len() - 1] == s[i]);
                } else if i == n {
                    assert(tail[0] == s[i + 1]);
                }
            }
        }
    }
}

/// What a well-formed name is made of: lowercase letters `a` to `z`, digits, and
/// hyphens, each hyphen with something else on either side.
pub proof fn law_name_characters(s: Seq<char>)
    ensures
        name_format(s) <==> s.len() > 0 && forall|i: int|
            0 <= i < s.len() ==> {
                ||| 'a' <= #[trigger] s[i] <= 'z'
                ||| '0' <= s[i] <= '9'
                ||| s[i] == '-' && 0 < i < s.len() - 1 && s[i - 1] != '-' && s[i + 1] != '-'
            },
{
    if s.len() > 0 && forall|i: int|
        0 <= i < s.len() ==> {
            ||| 'a' <= #[trigger] s[i] <= 'z'
            ||| '0' <= s[i] <= '9'
            ||| s[i] == '-' && 0 < i < s.len() - 1 && s[i - 1] != '-' && s[i + 1] != '-'
        } {
        assert(s[0] != '-');
        assert(s[s.len() - 1] != '-');
    }
    if name_format(s) {
        assert forall|i: int| 0 <= i < s.len() implies {
            ||| 'a' <= #[trigger] s[i] <= 'z'
            ||| '0' <= s[i] <= '9'
            ||| s[i] == '-' && 0 < i < s.len() - 1 && s[i - 1] != '-' && s[i + 1] != '-'
        } by {
            if s[i] == '-' && i > 0 {
                if s[i - 1] == '-' {
                    assert(s[i - 1 + 1] != '-');
                }
            }
        }
    }
}

/// What a URI scheme is: a letter, and then letters, digits, `+`, `.` and `-` up
/// to the first colon.
pub proof fn law_scheme_characters(scheme: Seq<char>, rest: Seq<char>)
    requires
        forall|i: int| 0 <= i < scheme.len() ==> #[trigger] scheme[i] != ':',
    ensures
        has_scheme(scheme + seq![':'] + rest) <==> scheme.len() > 0 && ('a' <= scheme[0] <= 'z'
            || 'A' <= scheme[0] <= 'Z') && forall|i: int|
            0 < i < scheme.len() ==> {
                let c = #[trigger] scheme[i];
                'a' <= c <= 'z' || 'A' <= c <= 'Z' || '0' <= c <= '9' || c == '+' || c == '.' || c
                    == '-'
            },
        !has_scheme(scheme),
{
    let s = scheme + seq![':'] + rest;
    let n = scheme.len() as int;
    assert(s[n] == ':');
    if has_scheme(s) {
        let m = choose|m: int| scheme_at(s, m);
        if m < n {
            assert(s[m] == scheme[m]);
        } else if m > n {
            if n > 0 {
                assert(scheme_char(s[n]));
            } else {
                assert(ascii_letter(s[0]));
            }
        }
        assert(m == n);
        assert(s[0] == scheme[0]);
        assert forall|i: int| 0 < i < scheme.len() implies scheme_char(#[trigger] scheme[i]) by {
            assert(s[i] == scheme[i]);
        }
    }
    if scheme.len() > 0 && ascii_letter(scheme[0]) && forall|i: int|
        0 < i < scheme.len() ==> scheme_char(#[trigger] scheme[i]) {
        assert(s[0] == scheme[0]);
        assert forall|i: int| 0 < i < n implies scheme_char(#[trigger] s[i]) by {
            assert(s[i] == scheme[i]);
        }
        assert(scheme_at(s, n));
    }
    if has_scheme(scheme) {
        let m = choose|m: int| scheme_at(scheme, m);
        assert(scheme[m] == ':');
    }
}

/// The expressions, to the letter: a lowercase name in hyphenated segments, a
/// URI scheme, a link or an image with its target, and a code span.
pub proof fn law_expressions()
    ensures
        NAME_PATTERN@ == r"^[a-z0-9]+(?:-[a-z0-9]+)*$"@,
        URI_SCHEME_PATTERN@ == r"^[a-zA-Z][a-zA-Z0-9+.-]*:"@,
        LINK_PATTERN@ == r"!?\[[^\]]*\]\(([^)]+)\)"@,
        CODE_SPAN_PATTERN@ == r"`([^`]+)`"@,
{
}

/// The next position is the only one with the character and none between.
proof fn lemma_next_of_is(s: Seq<char>, c: char, from: int, n: int)
    requires
        0 <= from <= n <= s.len(),
        forall|i: int| from <= i < n ==> #[trigger] s[i] != c,
        n < s.len() ==> s[n] == c,
    ensures
        next_of(s, c, from) == n,
{
    lemma_next_of(s, c, from);
    let m = next_of(s, c, from);
    if m < n {
        assert(s[m] != c);
    } else if n < m {
        assert(s[n] != c);
    }
}

/// What stands in front does not change where the next one is.
proof fn lemma_next_of_shifts(a: Seq<char>, b: Seq<char>, c: char, from: int)
    requires
        0 <= from <= b.len(),
    ensures
        next_of(a + b, c, a.len() + from) == a.len() + next_of(b, c, from),
{
    let s = a + b;
    lemma_next_of(b, c, from);
    let n = next_of(b, c, from);
    assert forall|i: int| a.len() + from <= i < a.len() + n implies #[trigger] s[i] != c by {
        assert(s[i] == b[i - a.len()]);
    }
    if n < b.len() {
        assert(s[a.len() + n] == b[n]);
    }
    lemma_next_of_is(s, c, a.len() + from, a.len() + n);
}

proof fn lemma_spans_shift(a: Seq<char>, b: Seq<char>, from: int)
    requires
        0 <= from,
    ensures
        span_groups(a + b, a.len() + from) == span_groups(b, from),
    decreases b.len() - from,
{
    let s = a + b;
    if from < b.len() {
        lemma_next_of_shifts(a, b, '`', from + 1);
        lemma_next_of(b, '`', from + 1);
        assert(s[a.len() + from] == b[from]);
        match span_at(b, from) {
            Some((start, end)) => {
                lemma_spans_shift(a, b, end + 1);
                assert(span_at(s, a.len() + from) == Some((a.len() + start, a.len() + end)));
                assert(s.subrange(a.len() + start, a.len() + end) =~= b.subrange(start, end));
            },
            None => {
                lemma_spans_shift(a, b, from + 1);
                assert(span_at(s, a.len() + from) is None);
            },
        }
    }
}

proof fn lemma_spans_skip(a: Seq<char>, b: Seq<char>, from: int)
    requires
        0 <= from <= a.len(),
        forall|i: int| 0 <= i < a.len() ==> #[trigger] a[i] != '`',
    ensures
        span_groups(a + b, from) == span_groups(b, 0),
    decreases a.len() - from,
{
    if from < a.len() {
        assert((a + b)[from] == a[from]);
        lemma_spans_skip(a, b, from + 1);
    } else {
        lemma_spans_shift(a, b, 0);
    }
}

/// A text between two backticks is a code span, and the search goes on behind
/// it.
pub proof fn law_span_is_found(before: Seq<char>, text: Seq<char>, after: Seq<char>)
    requires
        forall|i: int| 0 <= i < before.len() ==> #[trigger] before[i] != '`',
        forall|i: int| 0 <= i < text.len() ==> #[trigger] text[i] != '`',
        text.len() > 0,
    ensures
        span_groups(before + seq!['`'] + text + seq!['`'] + after, 0) == seq![text] + span_groups(
            after,
            0,
        ),
{
    let rest = seq!['`'] + text + seq!['`'] + after;
    let n = text.len() + 1;
    assert(before + seq!['`'] + text + seq!['`'] + after =~= before + rest);
    lemma_spans_skip(before, rest, 0);
    assert forall|i: int| 1 <= i < n implies #[trigger] rest[i] != '`' by {
        assert(rest[i] == text[i - 1]);
    }
    assert(rest[n as int] == '`');
    lemma_next_of_is(rest, '`', 1, n as int);
    assert(span_at(rest, 0) == Some((1int, n as int)));
    assert(rest.subrange(1, n as int) =~= text);
    let head = seq!['`'] + text + seq!['`'];
    assert(rest =~= head + after);
    lemma_spans_shift(head, after, 0);
}

/// A backtick with none behind it, or with one behind it at once, begins no code
/// span; the search goes on with what follows it.
pub proof fn law_no_span_here(before: Seq<char>, rest: Seq<char>)
    requires
        forall|i: int| 0 <= i < before.len() ==> #[trigger] before[i] != '`',
        rest.len() > 0 && rest[0] == '`' || forall|i: int|
            0 <= i < rest.len() ==> #[trigger] rest[i] != '`',
    ensures
        span_groups(before + seq!['`'] + rest, 0) == span_groups(rest, 0),
{
    let tail = seq!['`'] + rest;
    assert(before + seq!['`'] + rest =~= before + tail);
    lemma_spans_skip(before, tail, 0);
    let n: int = if rest.len() > 0 && rest[0] == '`' {
        1
    } else {
        tail.len() as int
    };
    assert forall|i: int| 1 <= i < n implies #[trigger] tail[i] != '`' by {
        assert(tail[i] == rest[i - 1]);
    }
    if n < tail.len() {
        assert(tail[n] == rest[0]);
    }
    lemma_next_of_is(tail, '`', 1, n);
    lemma_spans_shift(seq!['`'], rest, 0);
}

proof fn lemma_links_shift(a: Seq<char>, b: Seq<char>, from: int)
    requires
        0 <= from,
    ensures
        link_groups(a + b, a.len() + from) == link_groups(b, from),
    decreases b.len() - from,
{
    let s = a + b;
    if from < b.len() {
        let k = a.len();
        lemma_next_of_shifts(a, b, ']', from + 1);
        lemma_next_of(b, ']', from + 1);
        let close = next_of(b, ']', from + 1);
        assert(s[k + from] == b[from]);
        if close + 2 <= b.len() {
            lemma_next_of_shifts(a, b, ')', close + 2);
            lemma_next_of(b, ')', close + 2);
            assert(s[k + close + 1] == b[close + 1]);
        } else {
            assert(next_of(b, ')', close + 2) == b.len());
            assert(next_of(s, ')', k + close + 2) == s.len());
        }
        match link_at(b, from) {
            Some((start, end)) => {
                lemma_links_shift(a, b, end + 1);
                assert(link_at(s, k + from) == Some((k + start, k + end)));
                assert(s.subrange(k + start, k + end) =~= b.subrange(start, end));
            },
            None => {
                lemma_links_shift(a, b, from + 1);
                assert(link_at(s, k + from) is None);
            },
        }
    }
}

proof fn lemma_links_skip(a: Seq<char>, b: Seq<char>, from: int)
    requires
        0 <= from <= a.len(),
        forall|i: int| 0 <= i < a.len() ==> #[trigger] a[i] != '[',
    ensures
        link_groups(a + b, from) == link_groups(b, 0),
    decreases a.len() - from,
{
    if from < a.len() {
        assert((a + b)[from] == a[from]);
        lemma_links_skip(a, b, from + 1);
    } else {
        lemma_links_shift(a, b, 0);
    }
}

/// A text in square brackets with a target in round ones at once behind it is a
/// link, and the search goes on behind it.
pub proof fn law_link_is_found(
    before: Seq<char>,
    text: Seq<char>,
    target: Seq<char>,
    after: Seq<char>,
)
    requires
        forall|i: int| 0 <= i < before.len() ==> #[trigger] before[i] != '[',
        forall|i: int| 0 <= i < text.len() ==> #[trigger] text[i] != ']',
        forall|i: int| 0 <= i < target.len() ==> #[trigger] target[i] != ')',
        target.len() > 0,
    ensures
        link_groups(
            before + seq!['['] + text + seq![']', '('] + target + seq![')'] + after,
            0,
        ) == seq![target] + link_groups(after, 0),
{
    let head = seq!['['] + text + seq![']', '('] + target + seq![')'];
    let rest = head + after;
    let close = (text.len() + 1) as int;
    let end = close + 2 + target.len();
    assert(before + seq!['['] + text + seq![']', '('] + target + seq![')'] + after =~= before + rest);
    lemma_links_skip(before, rest, 0);
    assert forall|i: int| 1 <= i < close implies #[trigger] rest[i] != ']' by {
        assert(rest[i] == text[i - 1]);
    }
    assert(rest[close] == ']');
    assert(rest[close + 1] == '(');
    assert forall|i: int| close + 2 <= i < end implies #[trigger] rest[i] != ')' by {
        assert(rest[i] == target[i - close - 2]);
    }
    assert(rest[end] == ')');
    lemma_next_of_is(rest, ']', 1, close);
    lemma_next_of_is(rest, ')', close + 2, end);
    assert(link_at(rest, 0) == Some((close + 2, end)));
    assert(rest.subrange(close + 2, end) =~= target);
    lemma_links_shift(head, after, 0);
}

/// A `[` that no such text and target follow begins no link; the search goes on
/// behind it.
pub proof fn law_no_link_here(before: Seq<char>, rest: Seq<char>)
    requires
        forall|i: int| 0 <= i < before.len() ==> #[trigger] before[i] != '[',
        forall|close: int, end: int|
            0 <= close && close + 2 < end < rest.len() && #[trigger] rest[close] == ']' && rest[close
                + 1] == '(' && #[trigger] rest[end] == ')' ==> rest.take(close).contains(']')
                || rest.subrange(close + 2, end).contains(')'),
    ensures
        link_groups(before + seq!['['] + rest, 0) == link_groups(rest, 0),
{
    let s = seq!['['] + rest;
    assert(before + seq!['['] + rest =~= before + s);
    lemma_links_skip(before, s, 0);
    if let Some((start, end)) = link_at(s, 0) {
        let close = next_of(s, ']', 1);
        lemma_next_of(s, ']', 1);
        lemma_next_of(s, ')', close + 2);
        let text = rest.take(close - 1);
        let target = rest.subrange(start - 1, end - 1);
        assert(rest[close - 1] == s[close]);
        assert(rest[close] == s[close + 1]);
        assert(rest[end - 1] == s[end]);
        assert forall|i: int| 0 <= i < text.len() implies #[trigger] text[i] != ']' by {
            assert(text[i] == s[i + 1]);
        }
        assert forall|i: int| 0 <= i < target.len() implies #[trigger] target[i] != ')' by {
            assert(target[i] == s[start + i]);
        }
        assert(false);
    }
    lemma_links_shift(seq!['['], rest, 0);
}

} // verus!
