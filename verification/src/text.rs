//! Text primitives over characters: white space, trimming, splitting and
//! searching.
use vstd::prelude::*;

verus! {

/// `String::push`: appends one character to the end of the string.
pub assume_specification[ String::push ](s: &mut String, c: char)
    ensures
        final(s)@ == old(s)@.push(c),
;

/// The characters of each string, in order.
pub open spec fn texts(strings: Seq<String>) -> Seq<Seq<char>> {
    strings.map_values(|s: String| s@)
}

/// Whether `c` has Unicode's `White_Space` property.
pub open spec fn white_space(c: char) -> bool {
    ||| '\u{9}' <= c <= '\u{d}'
    ||| c == '\u{20}'
    ||| c == '\u{85}'
    ||| c == '\u{a0}'
    ||| c == '\u{1680}'
    ||| '\u{2000}' <= c <= '\u{200a}'
    ||| c == '\u{2028}'
    ||| c == '\u{2029}'
    ||| c == '\u{202f}'
    ||| c == '\u{205f}'
    ||| c == '\u{3000}'
}

/// Reports whether `c` is white space.
pub fn is_white_space(c: char) -> (r: bool)
    ensures
        r == white_space(c),
{
    ('\u{9}' <= c && c <= '\u{d}') || c == '\u{20}' || c == '\u{85}' || c == '\u{a0}' || c
        == '\u{1680}' || ('\u{2000}' <= c && c <= '\u{200a}') || c == '\u{2028}' || c == '\u{2029}'
        || c == '\u{202f}' || c == '\u{205f}' || c == '\u{3000}'
}

/// `s` without its leading white space.
pub open spec fn trimmed_start(s: Seq<char>) -> Seq<char>
    decreases s.len(),
{
    if s.len() > 0 && white_space(s[0]) {
        trimmed_start(s.drop_first())
    } else {
        s
    }
}

/// `s` without its trailing white space.
pub open spec fn trimmed_end(s: Seq<char>) -> Seq<char>
    decreases s.len(),
{
    if s.len() > 0 && white_space(s.last()) {
        trimmed_end(s.drop_last())
    } else {
        s
    }
}

/// `s` without its leading and trailing white space.
pub open spec fn trimmed(s: Seq<char>) -> Seq<char> {
    trimmed_end(trimmed_start(s))
}

/// Whether some character of `s` is white space.
pub open spec fn has_white_space(s: Seq<char>) -> bool {
    exists|i: int| 0 <= i < s.len() && white_space(#[trigger] s[i])
}

/// The first position in `s` of a character of `set`, or the length of `s`.
pub open spec fn first_of(s: Seq<char>, set: Seq<char>) -> int
    decreases s.len(),
{
    if s.len() == 0 || set.contains(s[0]) {
        0
    } else {
        1 + first_of(s.drop_first(), set)
    }
}

/// The last position in `s` of `c`, or -1.
pub open spec fn last_of(s: Seq<char>, c: char) -> int
    decreases s.len(),
{
    if s.len() == 0 || s.last() == c {
        s.len() - 1
    } else {
        last_of(s.drop_last(), c)
    }
}

/// The part of `s` before the first character of `set`; all of `s` if it has
/// none.
pub open spec fn before_any(s: Seq<char>, set: Seq<char>) -> Seq<char> {
    s.take(first_of(s, set))
}

/// Whether `s` has a character of `set`.
pub open spec fn has_any(s: Seq<char>, set: Seq<char>) -> bool {
    exists|i: int| 0 <= i < s.len() && set.contains(#[trigger] s[i])
}

/// The parts of `s` between the occurrences of `sep`: always one more than
/// there are occurrences.
pub open spec fn split_by(s: Seq<char>, sep: char) -> Seq<Seq<char>>
    decreases s.len(),
{
    let n = last_of(s, sep);
    if 0 <= n < s.len() {
        split_by(s.take(n), sep).push(s.skip(n + 1))
    } else {
        seq![s]
    }
}

/// The number of characters that `s` starts with that equal `c`.
pub open spec fn leading(s: Seq<char>, c: char) -> int
    decreases s.len(),
{
    if s.len() > 0 && s[0] == c {
        1 + leading(s.drop_first(), c)
    } else {
        0
    }
}

pub proof fn lemma_first_of(s: Seq<char>, set: Seq<char>)
    ensures
        0 <= first_of(s, set) <= s.len(),
        forall|i: int| 0 <= i < first_of(s, set) ==> !set.contains(#[trigger] s[i]),
        first_of(s, set) < s.len() ==> set.contains(s[first_of(s, set)]),
        has_any(s, set) <==> first_of(s, set) < s.len(),
    decreases s.len(),
{
    if s.len() == 0 || set.contains(s[0]) {
    } else {
        let rest = s.drop_first();
        lemma_first_of(rest, set);
        assert forall|i: int| 0 <= i < first_of(s, set) implies !set.contains(#[trigger] s[i]) by {
            if i > 0 {
                assert(s[i] == rest[i - 1]);
            }
        }
    }
}

/// The first position is the only one with a member of the set and none
/// before it.
pub proof fn lemma_first_of_is(s: Seq<char>, set: Seq<char>, n: int)
    requires
        0 <= n <= s.len(),
        forall|i: int| 0 <= i < n ==> !set.contains(#[trigger] s[i]),
        n < s.len() ==> set.contains(s[n]),
    ensures
        first_of(s, set) == n,
{
    lemma_first_of(s, set);
    let m = first_of(s, set);
    if m < n {
        assert(set.contains(s[m]));
    } else if n < m {
        assert(set.contains(s[n]));
    }
}

pub proof fn lemma_last_of(s: Seq<char>, c: char)
    ensures
        -1 <= last_of(s, c) < s.len(),
        forall|i: int| last_of(s, c) < i < s.len() ==> #[trigger] s[i] != c,
        0 <= last_of(s, c) ==> s[last_of(s, c)] == c,
    decreases s.len(),
{
    if s.len() == 0 || s.last() == c {
    } else {
        let rest = s.drop_last();
        lemma_last_of(rest, c);
        assert forall|i: int| last_of(s, c) < i < s.len() implies #[trigger] s[i] != c by {
            if i < s.len() - 1 {
                assert(s[i] == rest[i]);
            }
        }
    }
}

/// The last position is the only one with the character and none after it.
pub proof fn lemma_last_of_is(s: Seq<char>, c: char, n: int)
    requires
        -1 <= n < s.len(),
        forall|i: int| n < i < s.len() ==> #[trigger] s[i] != c,
        0 <= n ==> s[n] == c,
    ensures
        last_of(s, c) == n,
{
    lemma_last_of(s, c);
    let m = last_of(s, c);
    if m < n {
        assert(s[n] != c);
    } else if n < m {
        assert(s[m] != c);
    }
}

/// Copies the characters of `s`.
pub fn to_chars(s: &str) -> (r: Vec<char>)
    ensures
        r@ == s@,
{
    let mut r: Vec<char> = Vec::new();
    for c in it: s.chars()
        invariant
            r@ == it.seq().take(it.index() as int),
    {
        r.push(c);
    }
    r
}

/// Reports whether two strings have the same characters.
pub fn same_text(a: &str, b: &str) -> (r: bool)
    ensures
        r == (a@ == b@),
{
    let a: String = a.to_owned();
    let b: String = b.to_owned();
    a == b
}

/// Reports whether `list` holds a string with the characters of `s`.
pub fn contains_text(list: &Vec<String>, s: &str) -> (r: bool)
    ensures
        r == texts(list@).contains(s@),
{
    let wanted: String = s.to_owned();
    let mut i: usize = 0;
    while i < list.len()
        invariant
            i <= list.len(),
            wanted@ == s@,
            forall|j: int| 0 <= j < i ==> list@[j]@ != s@,
        decreases list.len() - i,
    {
        if list[i] == wanted {
            assert(texts(list@)[i as int] == s@);
            return true;
        }
        i += 1;
    }
    false
}

/// Removes the white space at both ends of `s`.
pub fn trim<'a>(s: &'a str) -> (r: &'a str)
    ensures
        r@ == trimmed(s@),
{
    let chars: Vec<char> = to_chars(s);
    let n: usize = chars.len();
    let mut lo: usize = 0;
    assert(s@.skip(0) == s@);
    while lo < n && is_white_space(chars[lo])
        invariant
            lo <= n,
            n == chars.len(),
            chars@ == s@,
            trimmed_start(s@) == trimmed_start(s@.skip(lo as int)),
        decreases n - lo,
    {
        assert(s@.skip(lo as int).drop_first() == s@.skip(lo + 1));
        lo += 1;
    }
    let mut hi: usize = n;
    assert(trimmed_start(s@) == s@.skip(lo as int));
    assert(s@.skip(lo as int) == s@.subrange(lo as int, hi as int));
    while lo < hi && is_white_space(chars[hi - 1])
        invariant
            lo <= hi <= n,
            n == chars.len(),
            chars@ == s@,
            trimmed(s@) == trimmed_end(s@.subrange(lo as int, hi as int)),
        decreases hi,
    {
        assert(s@.subrange(lo as int, hi as int).drop_last() == s@.subrange(lo as int, hi - 1));
        hi -= 1;
    }
    s.substring_char(lo, hi)
}

/// Reports whether `s` has a white space character.
pub fn contains_white_space(s: &str) -> (r: bool)
    ensures
        r == has_white_space(s@),
{
    let chars: Vec<char> = to_chars(s);
    let mut i: usize = 0;
    while i < chars.len()
        invariant
            i <= chars.len(),
            chars@ == s@,
            forall|j: int| 0 <= j < i ==> !white_space(#[trigger] s@[j]),
        decreases chars.len() - i,
    {
        if is_white_space(chars[i]) {
            return true;
        }
        i += 1;
    }
    false
}

/// Reports whether `s` has the character `c`.
pub fn contains_char(s: &str, c: char) -> (r: bool)
    ensures
        r == exists|i: int| 0 <= i < s@.len() && #[trigger] s@[i] == c,
{
    let chars: Vec<char> = to_chars(s);
    let mut i: usize = 0;
    while i < chars.len()
        invariant
            i <= chars.len(),
            chars@ == s@,
            forall|j: int| 0 <= j < i ==> #[trigger] s@[j] != c,
        decreases chars.len() - i,
    {
        if chars[i] == c {
            assert(s@[i as int] == c);
            return true;
        }
        i += 1;
    }
    false
}

/// Finds the first character of `s` that is in `set`, counted in characters,
/// or the number of characters in `s`.
pub fn find_any(s: &str, set: &str) -> (r: usize)
    ensures
        r == first_of(s@, set@),
        r <= s@.len(),
        has_any(s@, set@) <==> r < s@.len(),
{
    let chars: Vec<char> = to_chars(s);
    let wanted: Vec<char> = to_chars(set);
    let mut i: usize = 0;
    while i < chars.len()
        invariant
            i <= chars.len(),
            chars@ == s@,
            wanted@ == set@,
            forall|j: int| 0 <= j < i ==> !set@.contains(#[trigger] s@[j]),
        decreases chars.len() - i,
    {
        let c: char = chars[i];
        let mut k: usize = 0;
        while k < wanted.len()
            invariant
                k <= wanted.len(),
                wanted@ == set@,
                i < chars.len(),
                chars@ == s@,
                c == s@[i as int],
                forall|j: int| 0 <= j < i ==> !set@.contains(#[trigger] s@[j]),
                forall|j: int| 0 <= j < k ==> set@[j] != c,
            decreases wanted.len() - k,
        {
            if wanted[k] == c {
                proof {
                    assert(set@[k as int] == c);
                    lemma_first_of_is(s@, set@, i as int);
                    lemma_first_of(s@, set@);
                }
                return i;
            }
            k += 1;
        }
        i += 1;
    }
    proof {
        lemma_first_of_is(s@, set@, i as int);
        lemma_first_of(s@, set@);
    }
    i
}

/// Finds the last `c` in `s`, counted in characters.
pub fn find_last(s: &str, c: char) -> (r: Option<usize>)
    ensures
        match r {
            Some(n) => n == last_of(s@, c) && n < s@.len(),
            None => last_of(s@, c) == -1,
        },
{
    let chars: Vec<char> = to_chars(s);
    let mut i: usize = chars.len();
    while i > 0
        invariant
            i <= chars.len(),
            chars@ == s@,
            forall|j: int| i <= j < s@.len() ==> #[trigger] s@[j] != c,
        decreases i,
    {
        i -= 1;
        if chars[i] == c {
            proof {
                lemma_last_of_is(s@, c, i as int);
            }
            return Some(i);
        }
    }
    proof {
        lemma_last_of_is(s@, c, -1);
    }
    None
}

/// Reports whether `s` starts with `prefix`.
pub fn starts_with(s: &str, prefix: &str) -> (r: bool)
    ensures
        r == prefix@.is_prefix_of(s@),
{
    let chars: Vec<char> = to_chars(s);
    let head: Vec<char> = to_chars(prefix);
    if head.len() > chars.len() {
        return false;
    }
    let mut i: usize = 0;
    while i < head.len()
        invariant
            i <= head.len() <= chars.len(),
            chars@ == s@,
            head@ == prefix@,
            forall|j: int| 0 <= j < i ==> #[trigger] s@[j] == prefix@[j],
        decreases head.len() - i,
    {
        if chars[i] != head[i] {
            assert(s@.subrange(0, prefix@.len() as int)[i as int] != prefix@[i as int]);
            return false;
        }
        i += 1;
    }
    assert(s@.subrange(0, prefix@.len() as int) =~= prefix@);
    true
}

/// Splits `s` at each `sep`.
pub fn split(s: &str, sep: char) -> (r: Vec<String>)
    ensures
        texts(r@) == split_by(s@, sep),
        r@.len() <= s@.len() + 1,
{
    let chars: Vec<char> = to_chars(s);
    let mut parts: Vec<String> = Vec::new();
    let mut part: String = String::new();
    let mut i: usize = 0;
    proof {
        lemma_last_of(s@.take(0), sep);
        assert(s@.take(0) == part@);
        assert(texts(parts@).push(part@) =~= split_by(s@.take(0), sep));
    }
    while i < chars.len()
        invariant
            i <= chars.len(),
            chars@ == s@,
            parts@.len() <= i,
            texts(parts@).push(part@) == split_by(s@.take(i as int), sep),
            part@ == s@.take(i as int).skip(last_of(s@.take(i as int), sep) + 1),
            part@.len() <= i,
        decreases chars.len() - i,
    {
        let c: char = chars[i];
        let ghost before = s@.take(i as int);
        let ghost after = s@.take(i + 1);
        let ghost old_part = part@;
        let ghost old_parts = texts(parts@);
        proof {
            lemma_last_of(before, sep);
            lemma_last_of(after, sep);
            assert(after.drop_last() == before);
            assert(after.last() == c);
        }
        if c == sep {
            parts.push(part);
            part = String::new();
            proof {
                assert(after.take(i as int) == before);
                assert(after.skip(i + 1) =~= part@);
                assert(texts(parts@) =~= old_parts.push(old_part));
                assert(split_by(after, sep) == split_by(before, sep).push(part@));
            }
        } else {
            part.push(c);
            proof {
                let n = last_of(before, sep);
                assert(last_of(after, sep) == n);
                assert(after.skip(n + 1) =~= part@);
                if 0 <= n {
                    assert(after.take(n) =~= before.take(n));
                    assert(split_by(before, sep) == split_by(before.take(n), sep).push(
                        before.skip(n + 1),
                    ));
                    assert(split_by(before, sep).drop_last() =~= split_by(before.take(n), sep));
                    assert(old_parts.push(old_part).drop_last() =~= old_parts);
                    assert(split_by(after, sep) == old_parts.push(part@));
                } else {
                    assert(split_by(before, sep) == seq![before]);
                    assert(old_parts.push(old_part).drop_last() =~= old_parts);
                    assert(seq![before].drop_last() =~= Seq::<Seq<char>>::empty());
                    assert(part@ =~= after);
                    assert(seq![after] =~= old_parts.push(part@));
                }
            }
        }
        i += 1;
    }
    let ghost last = part@;
    let ghost front = texts(parts@);
    assert(s@.take(i as int) == s@);
    parts.push(part);
    assert(texts(parts@) =~= front.push(last));
    parts
}

/// Leading white space makes no difference to what is left without it.
proof fn lemma_trimmed_start_skips(a: Seq<char>, rest: Seq<char>)
    requires
        forall|i: int| 0 <= i < a.len() ==> white_space(#[trigger] a[i]),
    ensures
        trimmed_start(a + rest) == trimmed_start(rest),
    decreases a.len(),
{
    if a.len() == 0 {
        assert(a + rest =~= rest);
    } else {
        let tail = a.drop_first();
        assert(white_space(a[0]));
        assert forall|i: int| 0 <= i < tail.len() implies white_space(#[trigger] tail[i]) by {
            assert(tail[i] == a[i + 1]);
        }
        assert((a + rest).drop_first() =~= tail + rest);
        lemma_trimmed_start_skips(tail, rest);
    }
}

/// Trailing white space makes no difference to what is left without it.
proof fn lemma_trimmed_end_skips(rest: Seq<char>, b: Seq<char>)
    requires
        forall|i: int| 0 <= i < b.len() ==> white_space(#[trigger] b[i]),
    ensures
        trimmed_end(rest + b) == trimmed_end(rest),
    decreases b.len(),
{
    if b.len() == 0 {
        assert(rest + b =~= rest);
    } else {
        let front = b.drop_last();
        assert(white_space(b[b.len() - 1]));
        assert forall|i: int| 0 <= i < front.len() implies white_space(#[trigger] front[i]) by {
            assert(front[i] == b[i]);
        }
        assert((rest + b).drop_last() =~= rest + front);
        lemma_trimmed_end_skips(rest, front);
    }
}

/// Trimming takes the white space at both ends away and nothing else: a text
/// that neither starts nor ends with white space comes back whole, whatever
/// white space stands around it.
pub proof fn law_trimming(a: Seq<char>, text: Seq<char>, b: Seq<char>)
    requires
        forall|i: int| 0 <= i < a.len() ==> white_space(#[trigger] a[i]),
        forall|i: int| 0 <= i < b.len() ==> white_space(#[trigger] b[i]),
        text.len() > 0 ==> !white_space(text[0]) && !white_space(text[text.len() - 1]),
    ensures
        trimmed(a + text + b) == text,
{
    let none = Seq::<char>::empty();
    if text.len() == 0 {
        let all = a + text + b;
        assert(all =~= (a + b) + none);
        lemma_trimmed_start_skips(a + b, none);
        assert(text =~= none);
    } else {
        assert(a + text + b =~= a + (text + b));
        lemma_trimmed_start_skips(a, text + b);
        lemma_trimmed_end_skips(text, b);
    }
}

proof fn lemma_trimmed_start_at(s: Seq<char>) -> (n: int)
    ensures
        0 <= n <= s.len(),
        trimmed_start(s) == s.skip(n),
        forall|i: int| 0 <= i < n ==> white_space(#[trigger] s[i]),
        n < s.len() ==> !white_space(s[n]),
    decreases s.len(),
{
    if s.len() > 0 && white_space(s[0]) {
        let rest = s.drop_first();
        let n = lemma_trimmed_start_at(rest);
        assert forall|i: int| 0 <= i < n + 1 implies white_space(#[trigger] s[i]) by {
            if i > 0 {
                assert(s[i] == rest[i - 1]);
            }
        }
        assert(s.skip(n + 1) =~= rest.skip(n));
        n + 1
    } else {
        assert(s.skip(0) =~= s);
        0
    }
}

proof fn lemma_trimmed_end_at(s: Seq<char>) -> (n: int)
    ensures
        0 <= n <= s.len(),
        trimmed_end(s) == s.take(n),
        forall|i: int| n <= i < s.len() ==> white_space(#[trigger] s[i]),
        n > 0 ==> !white_space(s[n - 1]),
    decreases s.len(),
{
    if s.len() > 0 && white_space(s.last()) {
        let rest = s.drop_last();
        let n = lemma_trimmed_end_at(rest);
        assert forall|i: int| n <= i < s.len() implies white_space(#[trigger] s[i]) by {
            if i < s.len() - 1 {
                assert(s[i] == rest[i]);
            }
        }
        assert(s.take(n) =~= rest.take(n));
        n
    } else {
        assert(s.take(s.len() as int) =~= s);
        s.len() as int
    }
}

/// Where what is left of a text without the white space around it begins and
/// ends.
pub proof fn lemma_trimmed_at(s: Seq<char>) -> (r: (int, int))
    ensures
        0 <= r.0 <= r.1 <= s.len(),
        trimmed(s) == s.subrange(r.0, r.1),
        forall|i: int| 0 <= i < r.0 ==> white_space(#[trigger] s[i]),
        forall|i: int| r.1 <= i < s.len() ==> white_space(#[trigger] s[i]),
        r.0 < r.1 ==> !white_space(s[r.0]) && !white_space(s[r.1 - 1]),
{
    let lo = lemma_trimmed_start_at(s);
    let rest = s.skip(lo);
    let n = lemma_trimmed_end_at(rest);
    let hi = lo + n;
    assert(rest.take(n) =~= s.subrange(lo, hi));
    assert forall|i: int| hi <= i < s.len() implies white_space(#[trigger] s[i]) by {
        assert(s[i] == rest[i - lo]);
    }
    if lo < hi {
        assert(s[hi - 1] == rest[n - 1]);
    }
    (lo, hi)
}

/// What is left without the white space around it has none to lose.
pub proof fn law_trimming_is_idempotent(s: Seq<char>)
    ensures
        trimmed(s).len() > 0 ==> !white_space(trimmed(s)[0]) && !white_space(
            trimmed(s)[trimmed(s).len() - 1],
        ),
        trimmed(trimmed(s)) == trimmed(s),
{
    let (lo, hi) = lemma_trimmed_at(s);
    let none = Seq::<char>::empty();
    law_trimming(none, trimmed(s), none);
    assert(none + trimmed(s) + none =~= trimmed(s));
}

/// What stands before the first of a set of characters: all that comes before
/// it, and the whole text where there is none.
pub proof fn law_before_any(a: Seq<char>, rest: Seq<char>, set: Seq<char>)
    requires
        forall|i: int| 0 <= i < a.len() ==> !set.contains(#[trigger] a[i]),
        rest.len() > 0 ==> set.contains(rest[0]),
    ensures
        before_any(a + rest, set) == a,
        has_any(a + rest, set) <==> rest.len() > 0,
{
    let s = a + rest;
    assert forall|i: int| 0 <= i < a.len() implies !set.contains(#[trigger] s[i]) by {
        assert(s[i] == a[i]);
    }
    if rest.len() > 0 {
        assert(s[a.len() as int] == rest[0]);
    }
    lemma_first_of_is(s, set, a.len() as int);
    lemma_first_of(s, set);
    assert(s.take(a.len() as int) =~= a);
}

/// How many characters a run has: those up to the first other one.
pub proof fn law_leading_run(c: char, n: nat, rest: Seq<char>)
    requires
        rest.len() > 0 ==> rest[0] != c,
    ensures
        leading(Seq::new(n, |i: int| c) + rest, c) == n,
    decreases n,
{
    let run = Seq::new(n, |i: int| c);
    if n == 0 {
        assert(run + rest =~= rest);
    } else {
        law_leading_run(c, (n - 1) as nat, rest);
        assert((run + rest).drop_first() =~= Seq::new((n - 1) as nat, |i: int| c) + rest);
        assert((run + rest)[0] == c);
    }
}

/// The run that a text starts with, and what is behind it.
pub proof fn lemma_leading(s: Seq<char>, c: char)
    ensures
        0 <= leading(s, c) <= s.len(),
        forall|i: int| 0 <= i < leading(s, c) ==> #[trigger] s[i] == c,
        leading(s, c) < s.len() ==> s[leading(s, c)] != c,
    decreases s.len(),
{
    if s.len() > 0 && s[0] == c {
        let rest = s.drop_first();
        lemma_leading(rest, c);
        assert forall|i: int| 0 <= i < leading(s, c) implies #[trigger] s[i] == c by {
            if i > 0 {
                assert(s[i] == rest[i - 1]);
            }
        }
    }
}

/// A text without the separator is all one part.
pub proof fn law_split_whole(s: Seq<char>, sep: char)
    requires
        forall|i: int| 0 <= i < s.len() ==> #[trigger] s[i] != sep,
    ensures
        split_by(s, sep) == seq![s],
{
    lemma_last_of_is(s, sep, -1);
}

/// A separator between two texts parts them: the parts of the one come first,
/// then those of the other, and nothing is lost or joined.
pub proof fn law_split_parts(a: Seq<char>, b: Seq<char>, sep: char)
    ensures
        split_by(a + seq![sep] + b, sep) == split_by(a, sep) + split_by(b, sep),
    decreases b.len(),
{
    let s = a + seq![sep] + b;
    let n = last_of(b, sep);
    lemma_last_of(b, sep);
    assert(s[a.len() as int] == sep);
    if n < 0 {
        assert forall|i: int| a.len() < i < s.len() implies #[trigger] s[i] != sep by {
            assert(s[i] == b[i - a.len() - 1]);
        }
        lemma_last_of_is(s, sep, a.len() as int);
        assert(s.take(a.len() as int) =~= a);
        assert(s.skip(a.len() as int + 1) =~= b);
        assert(split_by(b, sep) =~= seq![b]);
        assert(split_by(s, sep) =~= split_by(a, sep) + split_by(b, sep));
    } else {
        let m = a.len() + 1 + n;
        assert(s[m] == b[n]);
        assert forall|i: int| m < i < s.len() implies #[trigger] s[i] != sep by {
            assert(s[i] == b[i - a.len() - 1]);
        }
        lemma_last_of_is(s, sep, m);
        assert(s.take(m) =~= a + seq![sep] + b.take(n));
        assert(s.skip(m + 1) =~= b.skip(n + 1));
        law_split_parts(a, b.take(n), sep);
        assert(split_by(s, sep) =~= split_by(a, sep) + split_by(b, sep));
    }
}

/// The characters of each string, in the order of the strings.
pub proof fn law_texts_in_order(strings: Seq<String>)
    ensures
        texts(strings).len() == strings.len(),
        forall|i: int| 0 <= i < strings.len() ==> #[trigger] texts(strings)[i] == strings[i]@,
{
}

} // verus!
