//! Numbers and quoted text as they read in a finding's message.
use vstd::prelude::*;

verus! {

/// The decimal digit `d`.
pub open spec fn digit(d: nat) -> char {
    ('0' as nat + d) as char
}

/// `n` in decimal, without leading zeros.
pub open spec fn decimal(n: nat) -> Seq<char>
    decreases n,
{
    if n < 10 {
        seq![digit(n)]
    } else {
        decimal(n / 10).push(digit(n % 10))
    }
}

/// `digits` with a comma before each group of three, counted from the right.
pub open spec fn grouped(digits: Seq<char>) -> Seq<char>
    decreases digits.len(),
{
    if digits.len() <= 3 {
        digits
    } else {
        grouped(digits.take(digits.len() - 3)).push(',') + digits.skip(digits.len() - 3)
    }
}

/// `n` in decimal, with thousands separators unless it is negative.
pub open spec fn humanized(n: int) -> Seq<char> {
    if n < 0 {
        seq!['-'] + decimal((-n) as nat)
    } else {
        grouped(decimal(n as nat))
    }
}

/// `text` as Rust's `Debug` writes a string: in double quotes, with what would
/// not print escaped.
pub uninterp spec fn debug_quoted(text: Seq<char>) -> Seq<char>;

/// `<str as core::fmt::Debug>::fmt`, through `format!`: the text in double
/// quotes, with what would not print escaped. Which characters are escaped,
/// and how, is left to the standard library.
#[verifier::external_body]
pub(crate) fn quote(text: &str) -> (r: String)
    ensures
        r@ == debug_quoted(text@),
{
    format!("{text:?}")
}

/// The last three digits of a number of at least four digits stand behind the
/// digits of its thousands.
proof fn lemma_thousands(n: nat)
    requires
        n >= 1000,
    ensures
        decimal(n) == decimal(n / 1000) + seq![
            digit(n / 100 % 10),
            digit(n / 10 % 10),
            digit(n % 10),
        ],
{
    let tens = n / 10;
    let hundreds = tens / 10;
    assert(hundreds == n / 100);
    assert(hundreds / 10 == n / 1000);
    assert(decimal(hundreds) == decimal(hundreds / 10).push(digit(hundreds % 10)));
    assert(decimal(tens) == decimal(hundreds).push(digit(tens % 10)));
    assert(decimal(n) == decimal(tens).push(digit(n % 10)));
    assert(decimal(n) =~= decimal(n / 1000) + seq![
        digit(n / 100 % 10),
        digit(n / 10 % 10),
        digit(n % 10),
    ]);
}

/// A number below a thousand has at most three digits, and every number has
/// one at least.
proof fn lemma_decimal_len(n: nat)
    ensures
        decimal(n).len() > 0,
        n < 1000 ==> decimal(n).len() <= 3,
    decreases n,
{
    if n >= 10 {
        lemma_decimal_len(n / 10);
        if n < 1000 {
            if n >= 100 {
                assert(decimal(n / 10) == decimal(n / 10 / 10).push(digit(n / 10 % 10)));
                assert(n / 10 / 10 < 10);
            }
        }
    }
}

/// Returns the decimal digit `d`.
fn digit_char(d: u64) -> (c: char)
    requires
        d < 10,
    ensures
        c == digit(d as nat),
{
    ('0' as u8 + d as u8) as char
}

/// Renders `n` in decimal.
pub fn decimal_string(n: u64) -> (r: String)
    ensures
        r@ == decimal(n as nat),
    decreases n,
{
    if n < 10 {
        let mut out: String = String::new();
        out.push(digit_char(n));
        assert(out@ =~= decimal(n as nat));
        out
    } else {
        let mut out: String = decimal_string(n / 10);
        out.push(digit_char(n % 10));
        out
    }
}

/// Renders `n` in decimal with thousands separators.
fn grouped_string(n: u64) -> (r: String)
    ensures
        r@ == grouped(decimal(n as nat)),
    decreases n,
{
    if n < 1000 {
        proof {
            lemma_decimal_len(n as nat);
        }
        decimal_string(n)
    } else {
        let mut out: String = grouped_string(n / 1000);
        out.push(',');
        out.push(digit_char(n / 100 % 10));
        out.push(digit_char(n / 10 % 10));
        out.push(digit_char(n % 10));
        proof {
            let all = decimal(n as nat);
            lemma_thousands(n as nat);
            lemma_decimal_len(n as nat / 1000);
            assert(all.take(all.len() - 3) =~= decimal(n as nat / 1000));
            assert(out@ =~= grouped(all));
        }
        out
    }
}

/// Renders `n` with thousands separators, so "6,142 tokens" reads at a glance
/// in reports. A negative number gets none.
pub fn humanize(n: i64) -> (r: String)
    ensures
        r@ == humanized(n as int),
{
    if n < 0 {
        let mut out: String = String::new();
        out.push('-');
        // `i64::MIN` has no negation, so count from one above it.
        let magnitude: u64 = (-(n + 1)) as u64 + 1;
        let digits: String = decimal_string(magnitude);
        out.append(digits.as_str());
        assert(out@ =~= humanized(n as int));
        out
    } else {
        grouped_string(n as u64)
    }
}

/// Whether a character is no thousands separator.
pub open spec fn not_comma() -> spec_fn(char) -> bool {
    |c: char| c != ','
}

proof fn lemma_decimal_digits(n: nat)
    ensures
        forall|i: int| 0 <= i < decimal(n).len() ==> '0' <= #[trigger] decimal(n)[i] <= '9',
    decreases n,
{
    if n >= 10 {
        lemma_decimal_digits(n / 10);
        let front = decimal(n / 10);
        assert forall|i: int| 0 <= i < decimal(n).len() implies '0' <= #[trigger] decimal(n)[i]
            <= '9' by {
            if i < front.len() {
                assert(decimal(n)[i] == front[i]);
            }
        }
    }
}

proof fn lemma_filter_all(s: Seq<char>)
    requires
        forall|i: int| 0 <= i < s.len() ==> #[trigger] s[i] != ',',
    ensures
        s.filter(not_comma()) == s,
    decreases s.len(),
{
    reveal(Seq::filter);
    if s.len() > 0 {
        assert(s[s.len() - 1] != ',');
        lemma_filter_all(s.drop_last());
        assert(s.drop_last().push(s.last()) =~= s);
    }
}

proof fn lemma_grouped_digits(digits: Seq<char>)
    requires
        forall|i: int| 0 <= i < digits.len() ==> #[trigger] digits[i] != ',',
    ensures
        grouped(digits).filter(not_comma()) == digits,
    decreases digits.len(),
{
    if digits.len() <= 3 {
        lemma_filter_all(digits);
    } else {
        let head = digits.take(digits.len() - 3);
        let tail = digits.skip(digits.len() - 3);
        lemma_grouped_digits(head);
        lemma_filter_all(tail);
        Seq::filter_distributes_over_add(grouped(head).push(','), tail, not_comma());
        assert(grouped(head).push(',').filter(not_comma()) == grouped(head).filter(not_comma())) by {
            reveal(Seq::filter);
            assert(grouped(head).push(',').drop_last() =~= grouped(head));
        }
        assert(head + tail =~= digits);
    }
}

/// Separators only separate: without them, the digits of the number are left.
pub proof fn law_humanized_keeps_digits(n: nat)
    ensures
        humanized(n as int).filter(not_comma()) == decimal(n),
{
    lemma_decimal_digits(n);
    lemma_grouped_digits(decimal(n));
}

/// Four digits or more have a separator before the last three, and fewer have
/// none.
pub proof fn law_humanized_groups(n: nat)
    ensures
        n < 1000 ==> humanized(n as int) == decimal(n),
        n >= 1000 ==> humanized(n as int) == humanized(n as int / 1000) + seq![
            ',',
            digit(n / 100 % 10),
            digit(n / 10 % 10),
            digit(n % 10),
        ],
{
    lemma_decimal_len(n);
    if n >= 1000 {
        let all = decimal(n);
        lemma_thousands(n);
        lemma_decimal_len(n / 1000);
        assert(all.take(all.len() - 3) =~= decimal(n / 1000));
        assert(humanized(n as int) =~= humanized(n as int / 1000) + seq![
            ',',
            digit(n / 100 % 10),
            digit(n / 10 % 10),
            digit(n % 10),
        ]);
    }
}

/// Decimal digits are read back as the number that they were written for, and
/// there are no zeros in front that say nothing.
pub proof fn law_decimal_reads_back(n: nat)
    ensures
        decimal(n).fold_left(0int, |value: int, c: char| 10 * value + (c as int - '0' as int)) == n,
        forall|i: int| 0 <= i < decimal(n).len() ==> '0' <= #[trigger] decimal(n)[i] <= '9',
        decimal(n).len() > 0,
        decimal(n).len() > 1 ==> decimal(n)[0] != '0',
    decreases n,
{
    let read = |value: int, c: char| 10 * value + (c as int - '0' as int);
    lemma_decimal_digits(n);
    lemma_decimal_len(n);
    if n < 10 {
        let last = decimal(n).drop_last();
        assert(last =~= Seq::<char>::empty());
        assert(last.fold_left(0int, read) == 0);
        assert(decimal(n).last() as int - '0' as int == n);
    } else {
        let front = decimal(n / 10);
        law_decimal_reads_back(n / 10);
        assert(decimal(n).drop_last() =~= front);
        assert(decimal(n).last() as int - '0' as int == n % 10);
        assert(decimal(n)[0] == front[0]);
        if front.len() == 1 {
            assert(front.drop_last() =~= Seq::<char>::empty());
            assert(front.drop_last().fold_left(0int, read) == 0);
            assert(front.last() == front[0]);
        }
    }
}

/// The separators stand before each three digits, counted from the right, and
/// nowhere else.
pub proof fn law_separator_places(n: nat)
    ensures
        humanized(n as int).len() > 0,
        humanized(n as int)[0] != ',',
        forall|i: int|
            0 <= i < humanized(n as int).len() ==> (#[trigger] humanized(n as int)[i] == ',' <==> (
            humanized(n as int).len() - i) % 4 == 0),
    decreases n,
{
    let out = humanized(n as int);
    law_humanized_groups(n);
    lemma_decimal_len(n);
    if n < 1000 {
        lemma_decimal_digits(n);
        assert(out == decimal(n));
    } else {
        let head = humanized(n as int / 1000);
        law_separator_places(n / 1000);
        assert(out.len() == head.len() + 4);
        assert forall|i: int| 0 <= i < out.len() implies (#[trigger] out[i] == ',' <==> (out.len()
            - i) % 4 == 0) by {
            if i < head.len() {
                assert(out[i] == head[i]);
            }
        }
        assert(out[0] == head[0]);
    }
}

/// A negative number has its sign in front of its digits, and no separators.
pub proof fn law_negative_numbers(n: nat)
    requires
        n > 0,
    ensures
        humanized(-n) == seq!['-'] + decimal(n),
{
}

} // verus!
