//! The rules' ids and the order that findings are reported in.
use crate::finding::{said, Finding, FindingView};
use vstd::prelude::*;

verus! {

// Rule ids, usable with `Config::disabled`.
pub const RULE_FRONTMATTER_MISSING: &'static str = "frontmatter.missing";

pub const RULE_FRONTMATTER_NOT_FIRST: &'static str = "frontmatter.not-first";

pub const RULE_FRONTMATTER_UNTERMINATED: &'static str = "frontmatter.unterminated";

pub const RULE_FRONTMATTER_INVALID: &'static str = "frontmatter.invalid";

pub const RULE_FRONTMATTER_UNKNOWN_KEY: &'static str = "frontmatter.unknown-key";

pub const RULE_NAME_REQUIRED: &'static str = "name.required";

pub const RULE_NAME_FORMAT: &'static str = "name.format";

pub const RULE_NAME_LENGTH: &'static str = "name.length";

pub const RULE_NAME_DIR_MISMATCH: &'static str = "name.dir-mismatch";

pub const RULE_DESCRIPTION_REQUIRED: &'static str = "description.required";

pub const RULE_DESCRIPTION_LENGTH: &'static str = "description.length";

pub const RULE_ALLOWED_TOOLS_TYPE: &'static str = "allowed-tools.type";

pub const RULE_METADATA_TYPE: &'static str = "metadata.type";

pub const RULE_TOKENS_CONTENT: &'static str = "tokens.content";

pub const RULE_TOKENS_NAME: &'static str = "tokens.name";

pub const RULE_TOKENS_DESCRIPTION: &'static str = "tokens.description";

pub const RULE_FILE_REFERENCE_MISSING: &'static str = "file-reference.missing";

/// Every rule id, in report order.
pub const RULES: [&'static str; 17] = [
    RULE_FRONTMATTER_MISSING,
    RULE_FRONTMATTER_NOT_FIRST,
    RULE_FRONTMATTER_UNTERMINATED,
    RULE_FRONTMATTER_INVALID,
    RULE_FRONTMATTER_UNKNOWN_KEY,
    RULE_NAME_REQUIRED,
    RULE_NAME_FORMAT,
    RULE_NAME_LENGTH,
    RULE_NAME_DIR_MISMATCH,
    RULE_DESCRIPTION_REQUIRED,
    RULE_DESCRIPTION_LENGTH,
    RULE_ALLOWED_TOOLS_TYPE,
    RULE_METADATA_TYPE,
    RULE_TOKENS_CONTENT,
    RULE_TOKENS_NAME,
    RULE_TOKENS_DESCRIPTION,
    RULE_FILE_REFERENCE_MISSING,
];

/// The place of `rule` among the `n` first ids in report order, or `n`.
pub open spec fn rank_among(rule: Seq<char>, n: nat) -> nat
    decreases n,
{
    if n == 0 {
        0
    } else {
        let earlier = rank_among(rule, (n - 1) as nat);
        if earlier < n - 1 || RULES[n - 1]@ == rule {
            earlier
        } else {
            n
        }
    }
}

/// The place of `rule` in report order; behind all others where the id is not
/// one of [`RULES`].
pub open spec fn rank(rule: Seq<char>) -> nat {
    rank_among(rule, 17)
}

/// Whether a finding's rule has the place `n`.
pub open spec fn of_rank(n: nat) -> spec_fn(FindingView) -> bool {
    |f: FindingView| rank(f.rule) == n
}

/// The findings whose rule has one of the `n` first places, rule by rule, and
/// those of one rule in the order that they came in.
pub open spec fn ranked(findings: Seq<FindingView>, n: nat) -> Seq<FindingView>
    decreases n,
{
    if n == 0 {
        seq![]
    } else {
        ranked(findings, (n - 1) as nat) + findings.filter(of_rank((n - 1) as nat))
    }
}

/// The findings in report order: rule by rule, and those of one rule in the
/// order that they came in.
pub open spec fn by_rule(findings: Seq<FindingView>) -> Seq<FindingView> {
    ranked(findings, 18)
}

/// The place is within the list, and the first with the id.
pub proof fn lemma_rank_among(rule: Seq<char>, n: nat)
    requires
        n <= 17,
    ensures
        rank_among(rule, n) <= n,
        rank_among(rule, n) < n ==> RULES[rank_among(rule, n) as int]@ == rule,
        forall|i: int| 0 <= i < rank_among(rule, n) ==> (#[trigger] RULES[i])@ != rule,
    decreases n,
{
    if n > 0 {
        lemma_rank_among(rule, (n - 1) as nat);
    }
}

/// The place is the only one with the rule's id and no other before it.
pub proof fn lemma_rank_is(rule: Seq<char>, n: nat)
    requires
        n <= 17,
        forall|i: int| 0 <= i < n ==> (#[trigger] RULES[i])@ != rule,
        n < 17 ==> RULES[n as int]@ == rule,
    ensures
        rank(rule) == n,
{
    lemma_rank_among(rule, 17);
    let m = rank(rule);
    if m < n {
        assert(RULES[m as int]@ != rule);
    } else if n < m {
        assert(RULES[n as int]@ != rule);
    }
}

/// Finds the place of `rule` in report order.
pub fn rule_rank(rule: &String) -> (r: usize)
    ensures
        r == rank(rule@),
        r <= 17,
{
    let mut i: usize = 0;
    while i < 17
        invariant
            i <= 17,
            forall|j: int| 0 <= j < i ==> (#[trigger] RULES[j])@ != rule@,
        decreases 17 - i,
    {
        let id: String = RULES[i].to_owned();
        if id == *rule {
            proof {
                lemma_rank_is(rule@, i as nat);
            }
            return i;
        }
        i += 1;
    }
    proof {
        lemma_rank_is(rule@, 17);
    }
    17
}

/// What one more finding in front does to a filter.
proof fn lemma_filter_front(f: FindingView, findings: Seq<FindingView>, n: nat)
    ensures
        (seq![f] + findings).filter(of_rank(n)) == if rank(f.rule) == n {
            seq![f] + findings.filter(of_rank(n))
        } else {
            findings.filter(of_rank(n))
        },
{
    reveal(Seq::filter);
    Seq::filter_distributes_over_add(seq![f], findings, of_rank(n));
    assert(seq![f].drop_last() =~= Seq::<FindingView>::empty());
    assert(seq![f].drop_last().filter(of_rank(n)) =~= Seq::<FindingView>::empty());
    if rank(f.rule) == n {
        assert(seq![f].filter(of_rank(n)) =~= seq![f]);
    } else {
        assert(seq![f].filter(of_rank(n)) =~= Seq::<FindingView>::empty());
        assert(Seq::<FindingView>::empty() + findings.filter(of_rank(n)) =~= findings.filter(
            of_rank(n),
        ));
    }
}

/// Every finding that a filter keeps passes it.
proof fn lemma_filter_ranks(findings: Seq<FindingView>, n: nat)
    ensures
        forall|i: int|
            0 <= i < findings.filter(of_rank(n)).len() ==> rank(
                (#[trigger] findings.filter(of_rank(n))[i]).rule,
            ) == n,
    decreases findings.len(),
{
    reveal(Seq::filter);
    if findings.len() > 0 {
        lemma_filter_ranks(findings.drop_last(), n);
    }
}

/// The first places come first.
proof fn lemma_ranked_splits(findings: Seq<FindingView>, m: nat, n: nat)
    requires
        m <= n,
    ensures
        ranked(findings, m).len() <= ranked(findings, n).len(),
        forall|i: int|
            0 <= i < ranked(findings, m).len() ==> rank((#[trigger] ranked(findings, n)[i]).rule)
                < m,
        forall|i: int|
            ranked(findings, m).len() <= i < ranked(findings, n).len() ==> m <= rank(
                (#[trigger] ranked(findings, n)[i]).rule,
            ) < n,
    decreases n,
{
    if n > 0 {
        let k = (n - 1) as nat;
        lemma_filter_ranks(findings, k);
        if m == n {
            lemma_ranked_splits(findings, k, k);
        } else {
            lemma_ranked_splits(findings, m, k);
        }
    }
}

/// Where one more finding in front goes.
proof fn lemma_ranked_front(f: FindingView, findings: Seq<FindingView>, n: nat)
    ensures
        ranked(seq![f] + findings, n) == if rank(f.rule) < n {
            ranked(findings, n).insert(ranked(findings, rank(f.rule)).len() as int, f)
        } else {
            ranked(findings, n)
        },
    decreases n,
{
    if n > 0 {
        let k = (n - 1) as nat;
        let r = rank(f.rule);
        lemma_ranked_front(f, findings, k);
        lemma_filter_front(f, findings, k);
        if r < n {
            lemma_ranked_splits(findings, r, k);
            assert(ranked(seq![f] + findings, n) =~= ranked(findings, n).insert(
                ranked(findings, r).len() as int,
                f,
            ));
        }
    }
}

/// Orders findings by rule so that output does not depend on the order the
/// checks happen to run in. Findings of one rule keep their order.
pub fn sort_findings(findings: &mut Vec<Finding>)
    ensures
        said(final(findings)@) == by_rule(said(old(findings)@)),
{
    let ghost all = said(findings@);
    let mut out: Vec<Finding> = Vec::new();
    proof {
        assert(all.skip(all.len() as int) =~= Seq::<FindingView>::empty());
        lemma_ranked_empty(18);
        assert(said(out@) =~= by_rule(all.skip(all.len() as int)));
        assert(all.take(all.len() as int) =~= all);
    }
    while findings.len() > 0
        invariant
            findings.len() <= all.len(),
            said(findings@) == all.take(findings.len() as int),
            said(out@) == by_rule(all.skip(findings.len() as int)),
        decreases findings.len(),
    {
        let ghost n = findings.len() as int;
        let ghost before = findings@;
        let ghost rest = all.skip(n);
        match findings.pop() {
            Some(finding) => {
                let ghost f = finding@;
                let r: usize = rule_rank(&finding.rule);
                proof {
                    assert(f == said(before)[n - 1]);
                    assert(f == all[n - 1]);
                    assert(said(findings@) =~= all.take(n - 1));
                    assert(all.skip(n - 1) =~= seq![f] + rest);
                    lemma_ranked_front(f, rest, 18);
                    lemma_ranked_splits(rest, r as nat, 18);
                }
                let mut at: usize = 0;
                while at < out.len() && rule_rank(&out[at].rule) < r
                    invariant
                        at <= out.len(),
                        said(out@) == ranked(rest, 18),
                        at <= ranked(rest, r as nat).len(),
                        ranked(rest, r as nat).len() <= ranked(rest, 18).len(),
                        forall|i: int|
                            0 <= i < ranked(rest, r as nat).len() ==> rank(
                                (#[trigger] ranked(rest, 18)[i]).rule,
                            ) < r,
                        forall|i: int|
                            ranked(rest, r as nat).len() <= i < ranked(rest, 18).len() ==> r
                                <= rank((#[trigger] ranked(rest, 18)[i]).rule) < 18,
                    decreases out.len() - at,
                {
                    assert(said(out@)[at as int] == out@[at as int]@);
                    at += 1;
                }
                proof {
                    if at < out.len() {
                        assert(said(out@)[at as int] == out@[at as int]@);
                    }
                    assert(at == ranked(rest, r as nat).len());
                }
                let ghost placed = out@;
                out.insert(at, finding);
                assert(said(out@) =~= said(placed).insert(at as int, f));
            },
            None => {},
        }
    }
    assert(all.skip(0) =~= all);
    *findings = out;
}

proof fn lemma_ranked_empty(n: nat)
    ensures
        ranked(Seq::empty(), n) == Seq::<FindingView>::empty(),
    decreases n,
{
    reveal(Seq::filter);
    if n > 0 {
        lemma_ranked_empty((n - 1) as nat);
        assert(ranked(Seq::empty(), n) =~= Seq::<FindingView>::empty());
    }
}

/// Findings are reported in the order of their rules.
pub proof fn law_report_order(findings: Seq<FindingView>)
    ensures
        forall|i: int, j: int|
            0 <= i < j < by_rule(findings).len() ==> rank((#[trigger] by_rule(findings)[i]).rule)
                <= rank((#[trigger] by_rule(findings)[j]).rule),
{
    let out = by_rule(findings);
    assert forall|i: int, j: int| 0 <= i < j < out.len() implies rank((#[trigger] out[i]).rule)
        <= rank((#[trigger] out[j]).rule) by {
        let r = rank(out[i].rule);
        lemma_rank_among(out[i].rule, 17);
        lemma_ranked_splits(findings, r, 18);
    }
}

/// Ordering loses no finding and makes none up.
pub proof fn law_report_keeps_findings(findings: Seq<FindingView>)
    ensures
        by_rule(findings).to_multiset() == findings.to_multiset(),
    decreases findings.len(),
{
    if findings.len() == 0 {
        assert(findings =~= Seq::empty());
        lemma_ranked_empty(18);
    } else {
        let f = findings[0];
        let rest = findings.drop_first();
        let at = ranked(rest, rank(f.rule)).len() as int;
        assert(findings =~= seq![f] + rest);
        law_report_keeps_findings(rest);
        lemma_rank_among(f.rule, 17);
        lemma_ranked_front(f, rest, 18);
        lemma_ranked_splits(rest, rank(f.rule), 18);
        broadcast use vstd::seq_lib::group_to_multiset_ensures;

        assert(findings =~= rest.insert(0, f));
        assert(by_rule(findings).to_multiset() =~= by_rule(rest).to_multiset().insert(f));
        assert(findings.to_multiset() =~= rest.to_multiset().insert(f));
    }
}

proof fn lemma_filter_filter(findings: Seq<FindingView>, m: nat, n: nat)
    ensures
        findings.filter(of_rank(m)).filter(of_rank(n)) == if m == n {
            findings.filter(of_rank(n))
        } else {
            Seq::empty()
        },
    decreases findings.len(),
{
    reveal(Seq::filter);
    if findings.len() > 0 {
        let front = findings.drop_last().filter(of_rank(m));
        lemma_filter_filter(findings.drop_last(), m, n);
        if rank(findings.last().rule) == m {
            assert(front.push(findings.last()).drop_last() =~= front);
        }
    }
}

proof fn lemma_ranked_filter(findings: Seq<FindingView>, n: nat, r: nat)
    ensures
        ranked(findings, n).filter(of_rank(r)) == if r < n {
            findings.filter(of_rank(r))
        } else {
            Seq::empty()
        },
    decreases n,
{
    reveal(Seq::filter);
    if n > 0 {
        let k = (n - 1) as nat;
        lemma_ranked_filter(findings, k, r);
        lemma_filter_filter(findings, k, r);
        Seq::filter_distributes_over_add(
            ranked(findings, k),
            findings.filter(of_rank(k)),
            of_rank(r),
        );
        assert(ranked(findings, n).filter(of_rank(r)) =~= if r < n {
            findings.filter(of_rank(r))
        } else {
            Seq::empty()
        });
    }
}

/// Ordering leaves the findings of one rule in the order that they came in.
pub proof fn law_report_is_stable(findings: Seq<FindingView>, r: nat)
    ensures
        by_rule(findings).filter(of_rank(r)) == findings.filter(of_rank(r)),
{
    lemma_ranked_filter(findings, 18, r);
    if r >= 18 {
        lemma_filter_ranks(findings, r);
        if findings.filter(of_rank(r)).len() > 0 {
            lemma_rank_among(findings.filter(of_rank(r))[0].rule, 17);
        }
        assert(findings.filter(of_rank(r)) =~= Seq::empty());
    }
}

/// The report does not depend on the order the rules were checked in: two runs
/// that find the same for each rule report the same.
pub proof fn law_report_ignores_check_order(a: Seq<FindingView>, b: Seq<FindingView>)
    requires
        forall|r: nat| #[trigger] a.filter(of_rank(r)) == b.filter(of_rank(r)),
    ensures
        by_rule(a) == by_rule(b),
{
    lemma_ranked_agrees(a, b, 18);
}

proof fn lemma_ranked_agrees(a: Seq<FindingView>, b: Seq<FindingView>, n: nat)
    requires
        forall|r: nat| #[trigger] a.filter(of_rank(r)) == b.filter(of_rank(r)),
    ensures
        ranked(a, n) == ranked(b, n),
    decreases n,
{
    if n > 0 {
        lemma_ranked_agrees(a, b, (n - 1) as nat);
    }
}

/// An id that is none of the rules' comes behind all of them.
pub proof fn law_unknown_rule_comes_last(rule: Seq<char>)
    requires
        forall|i: int| 0 <= i < RULES.len() ==> (#[trigger] RULES[i])@ != rule,
    ensures
        rank(rule) == RULES.len(),
{
    lemma_rank_is(rule, 17);
}

} // verus!
