//! Finding rules that are overridden by later rules with different owners.
//!
//! For each file of the repository, the rules that match it are looked up, and with each
//! whether a later rule with different owners wins. A rule is "dead" (disputed) when it's
//! overridden on all files it matches, meaning it can never actually determine ownership.
//! This catches the case where a specific rule appears before a general one, making it
//! useless.
use vstd::prelude::*;

use crate::matcher::{CompiledRule, RuleSet};
use crate::text::{push_decimal, push_joined, same_strings};

verus! {

use crate::matcher::{all_matches, last_match, owners_by};
use crate::text::{decimal, join_words, strings_view};

/// What becomes of the rule at `idx`, which matches the path: `None` if it wins or the
/// winner has the same owners, and otherwise the winner.
pub open spec fn outcome_entry(rules: Seq<CompiledRule>, path: Seq<char>, idx: usize) -> (usize, Option<usize>) {
    let winner = last_match(rules, path);
    if strings_view(rules[idx as int].owners@) == strings_view(rules[winner].owners@) {
        (idx, None)
    } else {
        (idx, Some(winner as usize))
    }
}

/// What becomes of the rules that match the path.
pub open spec fn outcome_of(rules: Seq<CompiledRule>, path: Seq<char>) -> Seq<(usize, Option<usize>)> {
    let matching = all_matches(rules, path);
    Seq::new(matching.len(), |i: int| outcome_entry(rules, path, matching[i]))
}

/// An outcome for `n` rules lists each rule at most once, in order.
pub open spec fn outcome_fits(n: nat, outcome: Seq<(usize, Option<usize>)>) -> bool {
    &&& forall|k: int| 0 <= k < outcome.len() ==> (#[trigger] outcome[k]).0 < n
    &&& forall|k: int, l: int|
        0 <= k < l < outcome.len() ==> (#[trigger] outcome[k]).0 < (#[trigger] outcome[l]).0
    &&& forall|k: int| 0 <= k < outcome.len() ==> ((#[trigger] outcome[k]).1 matches Some(w) ==> w < n)
}

/// The outcomes as sequences.
pub open spec fn outcomes_view(per_file: Seq<Vec<(usize, Option<usize>)>>) -> Seq<Seq<(usize, Option<usize>)>> {
    Seq::new(per_file.len(), |i: int| per_file[i]@)
}

/// All outcomes fit `n` rules.
pub open spec fn outcomes_fit(n: nat, outcomes: Seq<Seq<(usize, Option<usize>)>>) -> bool {
    forall|i: int| 0 <= i < outcomes.len() ==> outcome_fits(n, #[trigger] outcomes[i])
}

/// The rule is listed: it matches the file.
pub open spec fn listed(outcome: Seq<(usize, Option<usize>)>, rule: int) -> bool {
    exists|k: int| 0 <= k < outcome.len() && (#[trigger] outcome[k]).0 == rule
}

/// The rule is overridden by a rule with different owners.
pub open spec fn overridden(outcome: Seq<(usize, Option<usize>)>, rule: int) -> bool {
    exists|k: int| 0 <= k < outcome.len() && (#[trigger] outcome[k]).0 == rule && outcome[k].1 is Some
}

/// The rule is overridden by the rule `winner`, which has different owners.
pub open spec fn overridden_by(outcome: Seq<(usize, Option<usize>)>, rule: int, winner: int) -> bool {
    exists|k: int|
        0 <= k < outcome.len() && (#[trigger] outcome[k]).0 == rule && (outcome[k].1 matches Some(w) && w
            == winner)
}

/// In how many outcomes the rule is listed.
pub open spec fn total_matches(outcomes: Seq<Seq<(usize, Option<usize>)>>, rule: int) -> nat
    decreases outcomes.len(),
{
    if outcomes.len() == 0 {
        0
    } else {
        total_matches(outcomes.drop_last(), rule) + if listed(outcomes.last(), rule) {
            1nat
        } else {
            0nat
        }
    }
}

/// In how many outcomes the rule is overridden.
pub open spec fn overridden_matches(outcomes: Seq<Seq<(usize, Option<usize>)>>, rule: int) -> nat
    decreases outcomes.len(),
{
    if outcomes.len() == 0 {
        0
    } else {
        overridden_matches(outcomes.drop_last(), rule) + if overridden(outcomes.last(), rule) {
            1nat
        } else {
            0nat
        }
    }
}

/// In how many outcomes the rule is overridden by the rule `winner`.
pub open spec fn override_count(
    outcomes: Seq<Seq<(usize, Option<usize>)>>,
    rule: int,
    winner: int,
) -> nat
    decreases outcomes.len(),
{
    if outcomes.len() == 0 {
        0
    } else {
        override_count(outcomes.drop_last(), rule, winner) + if overridden_by(
            outcomes.last(),
            rule,
            winner,
        ) {
            1nat
        } else {
            0nat
        }
    }
}

/// A rule is dead if it matches at least one file and is overridden on all of them.
pub open spec fn dead(outcomes: Seq<Seq<(usize, Option<usize>)>>, rule: int) -> bool {
    total_matches(outcomes, rule) > 0 && overridden_matches(outcomes, rule) == total_matches(
        outcomes,
        rule,
    )
}

/// The dead ones among the first `n` rules, in order.
pub open spec fn dead_below(outcomes: Seq<Seq<(usize, Option<usize>)>>, n: int) -> Seq<int>
    decreases n,
{
    if n <= 0 {
        seq![]
    } else {
        let before = dead_below(outcomes, n - 1);
        if dead(outcomes, n - 1) {
            before.push(n - 1)
        } else {
            before
        }
    }
}

/// The ones among the first `n` rules that override `rule`, in order, each with the number
/// of files on which they do.
pub open spec fn overriders(outcomes: Seq<Seq<(usize, Option<usize>)>>, rule: int, n: int) -> Seq<(int, nat)>
    decreases n,
{
    if n <= 0 {
        seq![]
    } else {
        let before = overriders(outcomes, rule, n - 1);
        let count = override_count(outcomes, rule, n - 1);
        if count > 0 {
            before.push((n - 1, count))
        } else {
            before
        }
    }
}

/// Matching rules are listed in order.
pub proof fn lemma_matches_in_order(rules: Seq<CompiledRule>, path: Seq<char>)
    requires
        rules.len() <= usize::MAX,
    ensures
        forall|k: int| 0 <= k < all_matches(rules, path).len()
            ==> (#[trigger] all_matches(rules, path)[k]) < rules.len(),
        forall|k: int, l: int|
            0 <= k < l < all_matches(rules, path).len() ==> (#[trigger] all_matches(rules, path)[k]) < (
            #[trigger] all_matches(rules, path)[l]),
        forall|i: usize| #[trigger] all_matches(rules, path).contains(i)
            <==> i < rules.len() && rules[i as int].matches(path),
    decreases rules.len(),
{
    if rules.len() > 0 {
        let front = rules.drop_last();
        lemma_matches_in_order(front, path);
        let before = all_matches(front, path);
        let all = all_matches(rules, path);
        assert forall|i: usize| #[trigger] all.contains(i)
            <==> i < rules.len() && rules[i as int].matches(path) by {
            assert(before.contains(i) <==> i < front.len() && front[i as int].matches(path));
            if all.contains(i) {
                let k = choose|k: int| 0 <= k < all.len() && all[k] == i;
                if k < before.len() {
                    assert(before[k] == i);
                    assert(before.contains(i));
                }
            }
            if i < rules.len() && rules[i as int].matches(path) {
                if i == rules.len() - 1 {
                    assert(all[before.len() as int] == i);
                } else {
                    assert(before.contains(i));
                    let k = choose|k: int| 0 <= k < before.len() && before[k] == i;
                    assert(all[k] == i);
                }
            }
        }
    }
}

/// What `file_outcome` returns fits the rules.
pub proof fn lemma_outcome_fits(rules: Seq<CompiledRule>, path: Seq<char>)
    requires
        rules.len() <= usize::MAX,
    ensures
        outcome_fits(rules.len(), outcome_of(rules, path)),
{
    let matching = all_matches(rules, path);
    let outcome = outcome_of(rules, path);
    lemma_matches_in_order(rules, path);
    crate::ownership_laws::lemma_last_match(rules, path);
    crate::ownership_laws::lemma_winner_is_last(rules, path);
    assert forall|k: int| 0 <= k < outcome.len()
        implies (#[trigger] outcome[k]).0 < rules.len()
        && (outcome[k].1 matches Some(w) ==> w < rules.len()) by {
        assert(outcome[k].0 == matching[k]);
    }
    assert forall|k: int, l: int| 0 <= k < l < outcome.len()
        implies (#[trigger] outcome[k]).0 < (#[trigger] outcome[l]).0 by {
        assert(outcome[k].0 == matching[k]);
        assert(outcome[l].0 == matching[l]);
    }
}

/// For each rule that matches the path, whether a later rule with different owners wins.
/// `None` if no rule matches.
pub fn file_outcome(set: &RuleSet, path: &str) -> (r: Option<Vec<(usize, Option<usize>)>>)
    ensures
        r is None <==> all_matches(set.rules@, path@).len() == 0,
        r matches Some(outcome) ==> outcome@ == outcome_of(set.rules@, path@) && outcome_fits(
            set.rules@.len(),
            outcome@,
        ),
{
    let matching: Vec<usize> = set.find_all_matching(path);
    if matching.len() == 0 {
        return None;
    }
    let ghost rules = set.rules@;
    proof {
        assert(set.rules.len() == rules.len());
        lemma_matches_in_order(rules, path@);
        crate::ownership_laws::lemma_winner_is_last(rules, path@);
        lemma_outcome_fits(rules, path@);
    }
    let winner: usize = matching[matching.len() - 1];
    let mut outcome: Vec<(usize, Option<usize>)> = Vec::new();
    for i in 0..matching.len()
        invariant
            rules == set.rules@,
            matching@ == all_matches(rules, path@),
            winner == last_match(rules, path@),
            winner < rules.len(),
            forall|k: int| 0 <= k < matching@.len() ==> #[trigger] matching@[k] < rules.len(),
            outcome@ == outcome_of(rules, path@).take(i as int),
    {
        let idx: usize = matching[i];
        if idx == winner {
            outcome.push((idx, None));  // this rule wins
        } else if !same_strings(&set.rules[idx].owners, &set.rules[winner].owners) {
            outcome.push((idx, Some(winner)));  // overridden by a different owner
        } else {
            outcome.push((idx, None));  // overridden but same owners, doesn't matter
        }
        assert(outcome_of(rules, path@).take(i + 1) == outcome_of(rules, path@).take(i as int).push(
            outcome_of(rules, path@)[i as int],
        ));
    }
    assert(outcome_of(rules, path@).take(matching@.len() as int) == outcome_of(rules, path@));
    Some(outcome)
}

/// A rule that is overridden on all files it matches.
pub struct DeadRule {
    /// The index of the rule.
    pub rule: usize,
    /// How many files it matches.
    pub total: usize,
    /// The rules that override it, in order, each with the number of files.
    pub overrides: Vec<(usize, usize)>,
}

/// The overriding rules as integers.
pub open spec fn overrides_view(overrides: Seq<(usize, usize)>) -> Seq<(int, nat)> {
    Seq::new(overrides.len(), |i: int| (overrides[i].0 as int, overrides[i].1 as nat))
}

/// `found` are the dead ones among `n` rules.
pub open spec fn dead_rules_of(outcomes: Seq<Seq<(usize, Option<usize>)>>, n: int, found: Seq<DeadRule>) -> bool {
    &&& found.len() == dead_below(outcomes, n).len()
    &&& forall|i: int| #![trigger found[i]]
        0 <= i < found.len() ==> {
            &&& found[i].rule == dead_below(outcomes, n)[i]
            &&& found[i].rule < n
            &&& found[i].total == total_matches(outcomes, found[i].rule as int)
            &&& overrides_view(found[i].overrides@) == overriders(outcomes, found[i].rule as int, n)
        }
}

proof fn lemma_count_bounds(outcomes: Seq<Seq<(usize, Option<usize>)>>, rule: int, winner: int)
    ensures
        total_matches(outcomes, rule) <= outcomes.len(),
        overridden_matches(outcomes, rule) <= outcomes.len(),
        override_count(outcomes, rule, winner) <= outcomes.len(),
    decreases outcomes.len(),
{
    if outcomes.len() > 0 {
        lemma_count_bounds(outcomes.drop_last(), rule, winner);
    }
}

fn zeros(n: usize) -> (r: Vec<usize>)
    ensures
        r@.len() == n,
        forall|i: int| 0 <= i < n ==> r@[i] == 0,
{
    let mut r: Vec<usize> = Vec::new();
    for i in 0..n
        invariant
            r@.len() == i,
            forall|k: int| 0 <= k < i ==> r@[k] == 0,
    {
        r.push(0);
    }
    r
}

/// Counts one outcome.
fn tally_file(
    n: usize,
    outcome: &Vec<(usize, Option<usize>)>,
    total: &mut Vec<usize>,
    lost: &mut Vec<usize>,
)
    requires
        outcome_fits(n as nat, outcome@),
        old(total)@.len() == n,
        old(lost)@.len() == n,
        forall|r: int| 0 <= r < n ==> old(total)@[r] < usize::MAX && old(lost)@[r] < usize::MAX,
    ensures
        final(total)@.len() == n,
        final(lost)@.len() == n,
        forall|r: int| #![trigger final(total)@[r]]
            0 <= r < n ==> final(total)@[r] == old(total)@[r] + if listed(outcome@, r) {
                1int
            } else {
                0int
            },
        forall|r: int| #![trigger final(lost)@[r]]
            0 <= r < n ==> final(lost)@[r] == old(lost)@[r] + if overridden(outcome@, r) {
                1int
            } else {
                0int
            },
{
    let ghost total_before = total@;
    let ghost lost_before = lost@;
    for k in 0..outcome.len()
        invariant
            outcome_fits(n as nat, outcome@),
            total@.len() == n,
            lost@.len() == n,
            total_before.len() == n,
            lost_before.len() == n,
            forall|r: int| 0 <= r < n ==> total_before[r] < usize::MAX && lost_before[r] < usize::MAX,
            forall|r: int| #![trigger total@[r]]
                0 <= r < n ==> total@[r] == total_before[r] + if listed(outcome@.take(k as int), r) {
                    1int
                } else {
                    0int
                },
            forall|r: int| #![trigger lost@[r]]
                0 <= r < n ==> lost@[r] == lost_before[r] + if overridden(outcome@.take(k as int), r) {
                    1int
                } else {
                    0int
                },
    {
        let (rule, winner) = outcome[k];
        let ghost before = outcome@.take(k as int);
        let ghost after = outcome@.take(k + 1);
        proof {
            assert(outcome@[k as int].0 < n);
            lemma_take_outcome(n as nat, outcome@, k as int);
        }
        total[rule] = total[rule] + 1;
        if winner.is_some() {
            lost[rule] = lost[rule] + 1;
        }
    }
    assert(outcome@.take(outcome@.len() as int) == outcome@);
}

proof fn lemma_take_outcome(n: nat, outcome: Seq<(usize, Option<usize>)>, k: int)
    requires
        outcome_fits(n, outcome),
        0 <= k < outcome.len(),
    ensures
        !listed(outcome.take(k), outcome[k].0 as int),
        !overridden(outcome.take(k), outcome[k].0 as int),
        forall|r: int| #![trigger listed(outcome.take(k + 1), r)]
            listed(outcome.take(k + 1), r) <==> listed(outcome.take(k), r) || r == outcome[k].0,
        forall|r: int| #![trigger overridden(outcome.take(k + 1), r)]
            overridden(outcome.take(k + 1), r) <==> overridden(outcome.take(k), r) || (r == outcome[k].0
                && outcome[k].1 is Some),
{
    let before = outcome.take(k);
    let after = outcome.take(k + 1);
    if listed(before, outcome[k].0 as int) {
        let m = choose|m: int| 0 <= m < before.len() && (#[trigger] before[m]).0 == outcome[k].0;
        assert(outcome[m].0 < outcome[k].0);
    }
    if overridden(before, outcome[k].0 as int) {
        let m = choose|m: int| 0 <= m < before.len() && (#[trigger] before[m]).0 == outcome[k].0
            && before[m].1 is Some;
        assert(outcome[m].0 < outcome[k].0);
    }
    assert forall|r: int| #![trigger listed(after, r)] listed(after, r)
        <==> listed(before, r) || r == outcome[k].0 by {
        if listed(after, r) {
            let m = choose|m: int| 0 <= m < after.len() && (#[trigger] after[m]).0 == r;
            if m < k {
                assert(before[m].0 == r);
            }
        }
        if listed(before, r) {
            let m = choose|m: int| 0 <= m < before.len() && (#[trigger] before[m]).0 == r;
            assert(after[m].0 == r);
        }
        assert(after[k].0 == outcome[k].0);
    }
    assert forall|r: int| #![trigger overridden(after, r)] overridden(after, r)
        <==> overridden(before, r) || (r == outcome[k].0 && outcome[k].1 is Some) by {
        if overridden(after, r) {
            let m = choose|m: int| 0 <= m < after.len() && (#[trigger] after[m]).0 == r && after[m].1 is Some;
            if m < k {
                assert(before[m].0 == r);
            }
        }
        if overridden(before, r) {
            let m = choose|m: int| 0 <= m < before.len() && (#[trigger] before[m]).0 == r
                && before[m].1 is Some;
            assert(after[m].0 == r);
        }
        assert(after[k].0 == outcome[k].0);
    }
}

/// Which rule overrides `rule` in an outcome, if any.
fn winner_over(n: usize, outcome: &Vec<(usize, Option<usize>)>, rule: usize) -> (r: Option<usize>)
    requires
        outcome_fits(n as nat, outcome@),
    ensures
        r matches Some(w) ==> w < n,
        forall|w: int| #[trigger] overridden_by(outcome@, rule as int, w) <==> (r matches Some(x) && x == w),
{
    for k in 0..outcome.len()
        invariant
            outcome_fits(n as nat, outcome@),
            forall|m: int| 0 <= m < k ==> (#[trigger] outcome@[m]).0 != rule,
    {
        let (idx, winner) = outcome[k];
        if idx == rule {
            proof {
                assert(outcome@[k as int].0 == rule);
                assert forall|w: int| #[trigger] overridden_by(outcome@, rule as int, w)
                    <==> (winner matches Some(x) && x == w) by {
                    if overridden_by(outcome@, rule as int, w) {
                        let m = choose|m: int| 0 <= m < outcome@.len() && (#[trigger] outcome@[m]).0 == rule
                            && (outcome@[m].1 matches Some(x) && x == w);
                        if k < m {
                            assert(outcome@[k as int].0 < outcome@[m].0);
                        }
                        assert(m == k);
                    }
                }
            }
            return winner;
        }
    }
    None
}

/// The rules that override `rule`, each with the number of files on which they do.
fn overrides_of(n: usize, per_file: &Vec<Vec<(usize, Option<usize>)>>, rule: usize) -> (r: Vec<(usize, usize)>)
    requires
        outcomes_fit(n as nat, outcomes_view(per_file@)),
    ensures
        overrides_view(r@) == overriders(outcomes_view(per_file@), rule as int, n as int),
        forall|k: int| 0 <= k < r@.len() ==> (#[trigger] r@[k]).0 < n,
{
    let mut counts: Vec<usize> = zeros(n);
    let ghost all = outcomes_view(per_file@);
    for f in 0..per_file.len()
        invariant
            all == outcomes_view(per_file@),
            outcomes_fit(n as nat, all),
            counts@.len() == n,
            forall|w: int| 0 <= w < n
                ==> #[trigger] counts@[w] == override_count(all.take(f as int), rule as int, w),
    {
        let ghost before = counts@;
        proof {
            assert(all.take(f + 1).drop_last() == all.take(f as int));
            assert(all.take(f + 1).last() == per_file@[f as int]@);
            assert(outcome_fits(n as nat, all[f as int]));
        }
        let found: Option<usize> = winner_over(n, &per_file[f], rule);
        if let Some(w) = found {
            proof {
                lemma_count_bounds(all.take(f as int), rule as int, w as int);
            }
            counts[w] = counts[w] + 1;
        }
        proof {
            assert forall|w: int| 0 <= w < n
                implies #[trigger] counts@[w] == override_count(all.take(f + 1), rule as int, w) by {
                assert(before[w] == override_count(all.take(f as int), rule as int, w));
                assert(overridden_by(per_file@[f as int]@, rule as int, w)
                    <==> (found matches Some(x) && x == w));
            }
        }
    }
    assert(all.take(all.len() as int) == all);
    let mut r: Vec<(usize, usize)> = Vec::new();
    assert(overrides_view(r@) == overriders(all, rule as int, 0));
    for w in 0..n
        invariant
            counts@.len() == n,
            forall|w: int| 0 <= w < n ==> #[trigger] counts@[w] == override_count(all, rule as int, w),
            overrides_view(r@) == overriders(all, rule as int, w as int),
            forall|k: int| 0 <= k < r@.len() ==> (#[trigger] r@[k]).0 < n,
    {
        let ghost before = overrides_view(r@);
        if counts[w] > 0 {
            r.push((w, counts[w]));
            assert(overrides_view(r@) == before.push((w as int, counts@[w as int] as nat)));
        }
    }
    r
}

/// Whether an outcome lists each of `n` rules at most once, in order.
fn outcome_is_fit(n: usize, outcome: &Vec<(usize, Option<usize>)>) -> (r: bool)
    ensures
        r == outcome_fits(n as nat, outcome@),
{
    for k in 0..outcome.len()
        invariant
            outcome_fits(n as nat, outcome@.take(k as int)),
    {
        let ghost before = outcome@.take(k as int);
        let ghost after = outcome@.take(k + 1);
        let (rule, winner) = outcome[k];
        let winner_fits: bool = match winner {
            Some(w) => w < n,
            None => true,
        };
        if rule >= n || !winner_fits || (k > 0 && outcome[k - 1].0 >= rule) {
            assert(!outcome_fits(n as nat, outcome@)) by {
                if outcome_fits(n as nat, outcome@) {
                    assert(outcome@[k as int].0 < n);
                    if k > 0 {
                        assert(outcome@[k - 1].0 < outcome@[k as int].0);
                    }
                }
            }
            return false;
        }
        assert(outcome_fits(n as nat, after)) by {
            assert(after == before.push(outcome@[k as int]));
            assert forall|i: int, l: int| 0 <= i < l < after.len() implies (#[trigger] after[i]).0 < (
            #[trigger] after[l]).0 by {
                if l == k {
                    assert(after[i] == before[i]);
                    assert(after[k - 1] == before[k - 1]);
                    if i < k - 1 {
                        assert(before[i].0 < before[k - 1].0);
                    }
                } else {
                    assert(before[i].0 < before[l].0);
                }
            }
            assert forall|i: int| 0 <= i < after.len()
                implies (#[trigger] after[i]).0 < n && (after[i].1 matches Some(
                w,
            ) ==> w < n) by {
                if i < k {
                    assert(after[i] == before[i]);
                }
            }
        }
    }
    assert(outcome@.take(outcome@.len() as int) == outcome@);
    true
}

/// Whether the outcomes are such as `file_outcome` gives for `n` rules.
pub fn outcomes_are_fit(n: usize, per_file: &Vec<Vec<(usize, Option<usize>)>>) -> (r: bool)
    ensures
        r == outcomes_fit(n as nat, outcomes_view(per_file@)),
{
    let ghost all = outcomes_view(per_file@);
    for f in 0..per_file.len()
        invariant
            all == outcomes_view(per_file@),
            forall|i: int| 0 <= i < f ==> outcome_fits(n as nat, #[trigger] all[i]),
    {
        assert(all[f as int] == per_file@[f as int]@);
        if !outcome_is_fit(n, &per_file[f]) {
            return false;
        }
    }
    true
}

/// The dead rules among `n` rules, from the outcomes of all files that some rule matches.
pub fn dead_rules(n: usize, per_file: &Vec<Vec<(usize, Option<usize>)>>) -> (found: Vec<DeadRule>)
    requires
        outcomes_fit(n as nat, outcomes_view(per_file@)),
    ensures
        dead_rules_of(outcomes_view(per_file@), n as int, found@),
        forall|i: int| 0 <= i < found@.len() ==> dead_rule_fits(n as nat, #[trigger] found@[i]),
{
    let mut total: Vec<usize> = zeros(n);
    let mut lost: Vec<usize> = zeros(n);
    let ghost all = outcomes_view(per_file@);
    for f in 0..per_file.len()
        invariant
            all == outcomes_view(per_file@),
            outcomes_fit(n as nat, all),
            total@.len() == n,
            lost@.len() == n,
            forall|r: int| 0 <= r < n ==> #[trigger] total@[r] == total_matches(all.take(f as int), r),
            forall|r: int| 0 <= r < n ==> #[trigger] lost@[r] == overridden_matches(all.take(f as int), r),
    {
        proof {
            assert(all.take(f + 1).drop_last() == all.take(f as int));
            assert(all.take(f + 1).last() == per_file@[f as int]@);
            assert(outcome_fits(n as nat, all[f as int]));
            assert forall|r: int| 0 <= r < n implies total@[r] < usize::MAX && lost@[r] < usize::MAX by {
                lemma_count_bounds(all.take(f as int), r, 0);
            }
        }
        tally_file(n, &per_file[f], &mut total, &mut lost);
    }
    assert(all.take(all.len() as int) == all);
    let mut found: Vec<DeadRule> = Vec::new();
    for r in 0..n
        invariant
            all == outcomes_view(per_file@),
            outcomes_fit(n as nat, all),
            total@.len() == n,
            lost@.len() == n,
            forall|r: int| 0 <= r < n ==> #[trigger] total@[r] == total_matches(all, r),
            forall|r: int| 0 <= r < n ==> #[trigger] lost@[r] == overridden_matches(all, r),
            found@.len() == dead_below(all, r as int).len(),
            forall|i: int| 0 <= i < found@.len() ==> dead_rule_fits(n as nat, #[trigger] found@[i]),
            forall|i: int| #![trigger found@[i]]
                0 <= i < found@.len() ==> {
                    &&& found@[i].rule == dead_below(all, r as int)[i]
                    &&& found@[i].rule < n
                    &&& found@[i].total == total_matches(all, found@[i].rule as int)
                    &&& overrides_view(found@[i].overrides@) == overriders(all, found@[i].rule as int, n as int)
                },
    {
        if total[r] > 0 && lost[r] == total[r] {
            found.push(DeadRule { rule: r, total: total[r], overrides: overrides_of(n, per_file, r) });
        }
    }
    found
}

// ---------------------------------------------------------------------------
// What a dead rule is
// ---------------------------------------------------------------------------

/// The outcomes of the files that some rule matches.
pub open spec fn outcomes_of_files(rules: Seq<CompiledRule>, files: Seq<Seq<char>>) -> Seq<Seq<(usize, Option<usize>)>>
    decreases files.len(),
{
    if files.len() == 0 {
        seq![]
    } else {
        let before = outcomes_of_files(rules, files.drop_last());
        let last = outcome_of(rules, files.last());
        if last.len() > 0 {
            before.push(last)
        } else {
            before
        }
    }
}

proof fn lemma_outcome_means(rules: Seq<CompiledRule>, path: Seq<char>, r: int)
    requires
        rules.len() <= usize::MAX,
        0 <= r < rules.len(),
    ensures
        listed(outcome_of(rules, path), r) <==> rules[r].matches(path),
        overridden(outcome_of(rules, path), r) <==> rules[r].matches(path) && owners_by(rules, path)
            != strings_view(rules[r].owners@),
{
    let matching = all_matches(rules, path);
    let outcome = outcome_of(rules, path);
    lemma_matches_in_order(rules, path);
    crate::ownership_laws::lemma_last_match(rules, path);
    assert(matching.contains(r as usize) <==> rules[r].matches(path));
    if rules[r].matches(path) {
        let k = choose|k: int| 0 <= k < matching.len() && matching[k] == r as usize;
        assert(outcome[k].0 == r);
        assert(last_match(rules, path) >= r);
    }
    if listed(outcome, r) {
        let k = choose|k: int| 0 <= k < outcome.len() && (#[trigger] outcome[k]).0 == r;
        assert(matching[k] == r);
        assert(matching.contains(r as usize));
    }
    if overridden(outcome, r) {
        let k = choose|k: int| 0 <= k < outcome.len() && (#[trigger] outcome[k]).0 == r
            && outcome[k].1 is Some;
        assert(matching[k] == r);
        assert(matching.contains(r as usize));
    }
}

/// The rule matches one of the files.
pub open spec fn matches_some(rules: Seq<CompiledRule>, files: Seq<Seq<char>>, r: int) -> bool {
    exists|f: int| 0 <= f < files.len() && rules[r].matches(#[trigger] files[f])
}

/// Some file that the rule matches has the owners that the rule names.
pub open spec fn decides_some(rules: Seq<CompiledRule>, files: Seq<Seq<char>>, r: int) -> bool {
    exists|f: int|
        0 <= f < files.len() && rules[r].matches(#[trigger] files[f]) && owners_by(rules, files[f])
            == strings_view(rules[r].owners@)
}

proof fn lemma_dead_counts(rules: Seq<CompiledRule>, files: Seq<Seq<char>>, r: int)
    requires
        rules.len() <= usize::MAX,
        0 <= r < rules.len(),
    ensures
        overridden_matches(outcomes_of_files(rules, files), r) <= total_matches(outcomes_of_files(rules, files), r),
        total_matches(outcomes_of_files(rules, files), r) > 0 <==> matches_some(rules, files, r),
        overridden_matches(outcomes_of_files(rules, files), r) < total_matches(outcomes_of_files(rules, files), r)
            <==> decides_some(rules, files, r),
    decreases files.len(),
{
    if files.len() > 0 {
        let front = files.drop_last();
        let path = files.last();
        let n = front.len() as int;
        lemma_dead_counts(rules, front, r);
        lemma_outcome_means(rules, path, r);
        let before = outcomes_of_files(rules, front);
        let last = outcome_of(rules, path);
        let all = outcomes_of_files(rules, files);
        if last.len() > 0 {
            assert(all.drop_last() == before);
            assert(all.last() == last);
        }
        assert(files[n] == path);
        if matches_some(rules, front, r) {
            let f = choose|f: int| 0 <= f < front.len() && rules[r].matches(#[trigger] front[f]);
            assert(rules[r].matches(files[f]));
        }
        if matches_some(rules, files, r) {
            let f = choose|f: int| 0 <= f < files.len() && rules[r].matches(#[trigger] files[f]);
            if f < n {
                assert(rules[r].matches(front[f]));
            }
        }
        if decides_some(rules, front, r) {
            let f = choose|f: int| 0 <= f < front.len() && rules[r].matches(#[trigger] front[f])
                && owners_by(rules, front[f]) == strings_view(rules[r].owners@);
            assert(rules[r].matches(files[f]));
        }
        if decides_some(rules, files, r) {
            let f = choose|f: int| 0 <= f < files.len() && rules[r].matches(#[trigger] files[f])
                && owners_by(rules, files[f]) == strings_view(rules[r].owners@);
            if f < n {
                assert(rules[r].matches(front[f]));
            }
        }
    }
}

/// A rule is dead exactly if it matches some file, and no file that it matches has the
/// owners that the rule names.
pub proof fn lemma_dead_rule(rules: Seq<CompiledRule>, files: Seq<Seq<char>>, r: int)
    requires
        rules.len() <= usize::MAX,
        0 <= r < rules.len(),
    ensures
        dead(outcomes_of_files(rules, files), r) <==> matches_some(rules, files, r) && !decides_some(
            rules,
            files,
            r,
        ),
{
    lemma_dead_counts(rules, files, r);
}

/// The sum of the numbers of files.
pub open spec fn files_total(overrides: Seq<(int, nat)>) -> nat
    decreases overrides.len(),
{
    if overrides.len() == 0 {
        0
    } else {
        files_total(overrides.drop_last()) + overrides.last().1
    }
}

/// On how many of the files one of the first `n` rules overrides the rule: 1 or 0.
spec fn override_flags(outcome: Seq<(usize, Option<usize>)>, rule: int, n: int) -> nat
    decreases n,
{
    if n <= 0 {
        0
    } else {
        override_flags(outcome, rule, n - 1) + if overridden_by(outcome, rule, n - 1) {
            1nat
        } else {
            0nat
        }
    }
}

proof fn lemma_one_winner(n: nat, outcome: Seq<(usize, Option<usize>)>, rule: int, v: int, w: int)
    requires
        outcome_fits(n, outcome),
        overridden_by(outcome, rule, v),
        overridden_by(outcome, rule, w),
    ensures
        v == w,
{
    let k = choose|k: int|
        0 <= k < outcome.len() && (#[trigger] outcome[k]).0 == rule
            && (outcome[k].1 matches Some(x) && x == v);
    let l = choose|l: int|
        0 <= l < outcome.len() && (#[trigger] outcome[l]).0 == rule
            && (outcome[l].1 matches Some(x) && x == w);
    if k < l {
        assert(outcome[k].0 < outcome[l].0);
    } else if l < k {
        assert(outcome[l].0 < outcome[k].0);
    }
}

proof fn lemma_override_flags(n: nat, outcome: Seq<(usize, Option<usize>)>, rule: int, m: int)
    requires
        outcome_fits(n, outcome),
        0 <= m,
    ensures
        override_flags(outcome, rule, m) == if exists|w: int| 0 <= w < m && overridden_by(outcome, rule, w) {
            1nat
        } else {
            0nat
        },
    decreases m,
{
    if m > 0 {
        lemma_override_flags(n, outcome, rule, m - 1);
        if overridden_by(outcome, rule, m - 1) {
            if exists|w: int| 0 <= w < m - 1 && overridden_by(outcome, rule, w) {
                let w = choose|w: int| 0 <= w < m - 1 && overridden_by(outcome, rule, w);
                lemma_one_winner(n, outcome, rule, w, m - 1);
            }
        }
    }
}

proof fn lemma_overridden_flag(n: nat, outcome: Seq<(usize, Option<usize>)>, rule: int)
    requires
        outcome_fits(n, outcome),
    ensures
        override_flags(outcome, rule, n as int) == if overridden(outcome, rule) {
            1nat
        } else {
            0nat
        },
{
    lemma_override_flags(n, outcome, rule, n as int);
    if overridden(outcome, rule) {
        let k = choose|k: int| 0 <= k < outcome.len() && (#[trigger] outcome[k]).0 == rule
            && outcome[k].1 is Some;
        let w = outcome[k].1->0;
        assert(outcome[k].1 matches Some(x) && x == w);
        assert(overridden_by(outcome, rule, w as int));
        assert(0 <= w < n);
    }
    if exists|w: int| 0 <= w < n && overridden_by(outcome, rule, w) {
        let w = choose|w: int| 0 <= w < n && overridden_by(outcome, rule, w);
        let k = choose|k: int|
            0 <= k < outcome.len() && (#[trigger] outcome[k]).0 == rule
                && (outcome[k].1 matches Some(x) && x == w);
        assert(outcome[k].1 is Some);
    }
}

proof fn lemma_files_total_step(outcomes: Seq<Seq<(usize, Option<usize>)>>, rule: int, m: int)
    requires
        outcomes.len() > 0,
    ensures
        files_total(overriders(outcomes, rule, m)) == files_total(overriders(outcomes.drop_last(), rule, m))
            + override_flags(outcomes.last(), rule, m),
    decreases m,
{
    if m > 0 {
        let front = outcomes.drop_last();
        lemma_files_total_step(outcomes, rule, m - 1);
        let a = overriders(outcomes, rule, m - 1);
        let b = overriders(front, rule, m - 1);
        let x = override_count(outcomes, rule, m - 1);
        let y = override_count(front, rule, m - 1);
        assert(a.push((m - 1, x)).drop_last() == a);
        assert(b.push((m - 1, y)).drop_last() == b);
    }
}

proof fn lemma_files_total(n: nat, outcomes: Seq<Seq<(usize, Option<usize>)>>, rule: int, m: int)
    requires
        outcomes_fit(n, outcomes),
        m == n,
    ensures
        files_total(overriders(outcomes, rule, m)) == overridden_matches(outcomes, rule),
    decreases outcomes.len(),
{
    if outcomes.len() == 0 {
        lemma_no_overriders(outcomes, rule, m);
    } else {
        let front = outcomes.drop_last();
        assert forall|i: int| 0 <= i < front.len() implies outcome_fits(n, #[trigger] front[i]) by {
            assert(front[i] == outcomes[i]);
        }
        assert(outcome_fits(n, outcomes[outcomes.len() - 1]));
        lemma_files_total(n, front, rule, m);
        lemma_files_total_step(outcomes, rule, m);
        lemma_overridden_flag(n, outcomes.last(), rule);
    }
}

proof fn lemma_no_overriders(outcomes: Seq<Seq<(usize, Option<usize>)>>, rule: int, m: int)
    requires
        outcomes.len() == 0,
    ensures
        overriders(outcomes, rule, m).len() == 0,
    decreases m,
{
    if m > 0 {
        lemma_no_overriders(outcomes, rule, m - 1);
    }
}

/// The numbers of files on which a dead rule is overridden add up to the number of files
/// that it matches.
pub proof fn lemma_override_counts_add_up(outcomes: Seq<Seq<(usize, Option<usize>)>>, n: nat, rule: int)
    requires
        outcomes_fit(n, outcomes),
        dead(outcomes, rule),
    ensures
        files_total(overriders(outcomes, rule, n as int)) == total_matches(outcomes, rule),
{
    lemma_files_total(n, outcomes, rule, n as int);
}

// ---------------------------------------------------------------------------
// The report
// ---------------------------------------------------------------------------

/// How a rule is named in the report.
pub open spec fn rule_heading(rule: CompiledRule, line_numbers: Seq<usize>) -> Seq<char> {
    "line "@ + decimal(line_numbers[rule.position as int] as nat) + ": "@ + rule.pattern@ + " "@ + join_words(
        strings_view(rule.owners@),
    )
}

/// The lines of the report on the rules that override a rule.
pub open spec fn overrides_text(
    rules: Seq<CompiledRule>,
    line_numbers: Seq<usize>,
    overrides: Seq<(usize, usize)>,
) -> Seq<char>
    decreases overrides.len(),
{
    if overrides.len() == 0 {
        seq![]
    } else {
        let (winner, count) = overrides.last();
        overrides_text(rules, line_numbers, overrides.drop_last()) + ("  "@ + rule_heading(
            rules[winner as int],
            line_numbers,
        ) + " ("@ + decimal(count as nat) + " files)\n"@)
    }
}

/// The report on one dead rule.
pub open spec fn dead_rule_text(rules: Seq<CompiledRule>, line_numbers: Seq<usize>, dead: DeadRule) -> Seq<char> {
    rule_heading(rules[dead.rule as int], line_numbers) + " is fully overridden ("@ + decimal(
        dead.total as nat,
    ) + " files):\n"@ + overrides_text(rules, line_numbers, dead.overrides@) + "\n"@
}

/// The report on the dead rules.
pub open spec fn report_text(rules: Seq<CompiledRule>, line_numbers: Seq<usize>, dead: Seq<DeadRule>) -> Seq<char>
    decreases dead.len(),
{
    if dead.len() == 0 {
        seq![]
    } else {
        report_text(rules, line_numbers, dead.drop_last()) + dead_rule_text(rules, line_numbers, dead.last())
    }
}

/// The dead rule and those that override it are among the rules.
pub open spec fn dead_rule_fits(n: nat, dead: DeadRule) -> bool {
    &&& dead.rule < n
    &&& forall|k: int| 0 <= k < dead.overrides@.len() ==> (#[trigger] dead.overrides@[k]).0 < n
}

/// Every rule has a line number.
pub open spec fn numbered(rules: Seq<CompiledRule>, line_numbers: Seq<usize>) -> bool {
    forall|i: int| 0 <= i < rules.len() ==> (#[trigger] rules[i]).position < line_numbers.len()
}

/// Whether every rule has a line number.
pub fn rules_are_numbered(set: &RuleSet, line_numbers: &Vec<usize>) -> (r: bool)
    ensures
        r == numbered(set.rules@, line_numbers@),
{
    for i in 0..set.rules.len()
        invariant
            forall|k: int| 0 <= k < i ==> (#[trigger] set.rules@[k]).position < line_numbers@.len(),
    {
        if set.rules[i].position >= line_numbers.len() {
            return false;
        }
    }
    true
}

fn push_heading(out: &mut String, rule: &CompiledRule, line_numbers: &Vec<usize>)
    requires
        rule.position < line_numbers@.len(),
    ensures
        final(out)@ == old(out)@ + rule_heading(*rule, line_numbers@),
{
    let ghost start = out@;
    out.append("line ");
    push_decimal(out, line_numbers[rule.position]);
    out.append(": ");
    out.append(rule.pattern.as_str());
    out.append(" ");
    push_joined(out, &rule.owners);
    assert(out@ == start + rule_heading(*rule, line_numbers@));
}

fn push_dead_rule(out: &mut String, set: &RuleSet, line_numbers: &Vec<usize>, dead: &DeadRule)
    requires
        numbered(set.rules@, line_numbers@),
        dead_rule_fits(set.rules@.len(), *dead),
    ensures
        final(out)@ == old(out)@ + dead_rule_text(set.rules@, line_numbers@, *dead),
{
    let ghost start = out@;
    push_heading(out, &set.rules[dead.rule], line_numbers);
    out.append(" is fully overridden (");
    push_decimal(out, dead.total);
    out.append(" files):\n");
    let ghost head = out@;
    let ghost head_text = rule_heading(set.rules@[dead.rule as int], line_numbers@)
        + " is fully overridden ("@ + decimal(dead.total as nat) + " files):\n"@;
    assert(head == start + head_text);
    assert(head == head + overrides_text(set.rules@, line_numbers@, dead.overrides@.take(0)));
    for k in 0..dead.overrides.len()
        invariant
            numbered(set.rules@, line_numbers@),
            dead_rule_fits(set.rules@.len(), *dead),
            out@ == head + overrides_text(set.rules@, line_numbers@, dead.overrides@.take(k as int)),
    {
        let (winner, count) = dead.overrides[k];
        let ghost before = out@;
        proof {
            assert(dead.overrides@[k as int].0 < set.rules@.len());
            assert(dead.overrides@.take(k + 1).drop_last() == dead.overrides@.take(k as int));
        }
        out.append("  ");
        push_heading(out, &set.rules[winner], line_numbers);
        out.append(" (");
        push_decimal(out, count);
        out.append(" files)\n");
        assert(out@ == before + ("  "@ + rule_heading(set.rules@[winner as int], line_numbers@) + " ("@
            + decimal(count as nat) + " files)\n"@));
        assert(out@ == head + overrides_text(set.rules@, line_numbers@, dead.overrides@.take(k + 1)));
    }
    assert(dead.overrides@.take(dead.overrides@.len() as int) == dead.overrides@);
    out.append("\n");
    assert(out@ == start + dead_rule_text(set.rules@, line_numbers@, *dead));
}

/// The report on the dead rules: each with its line, pattern and owners, the number of
/// files that it matches, and the rules that override it.
pub fn disputed_report(set: &RuleSet, line_numbers: &Vec<usize>, dead: &Vec<DeadRule>) -> (out: String)
    requires
        numbered(set.rules@, line_numbers@),
        forall|i: int| 0 <= i < dead@.len() ==> dead_rule_fits(set.rules@.len(), #[trigger] dead@[i]),
    ensures
        out@ == report_text(set.rules@, line_numbers@, dead@),
{
    let mut out: String = String::new();
    for i in 0..dead.len()
        invariant
            numbered(set.rules@, line_numbers@),
            forall|i: int| 0 <= i < dead@.len() ==> dead_rule_fits(set.rules@.len(), #[trigger] dead@[i]),
            out@ == report_text(set.rules@, line_numbers@, dead@.take(i as int)),
    {
        assert(dead@.take(i + 1).drop_last() == dead@.take(i as int));
        push_dead_rule(&mut out, set, line_numbers, &dead[i]);
    }
    assert(dead@.take(dead@.len() as int) == dead@);
    out
}

/// The last line that is said of the dead rules.
pub open spec fn summary_text(count: nat) -> Seq<char> {
    if count == 0 {
        "No disputed rules found."@
    } else {
        decimal(count) + " dead rules found."@
    }
}

/// The last line that is said of the dead rules.
pub fn disputed_summary(count: usize) -> (out: String)
    ensures
        out@ == summary_text(count as nat),
{
    let mut out: String = String::new();
    if count == 0 {
        out.append("No disputed rules found.");
    } else {
        push_decimal(&mut out, count);
        out.append(" dead rules found.");
    }
    assert(out@ == summary_text(count as nat));
    out
}

/// The status that the program exits with.
pub open spec fn status_of(count: nat) -> int {
    if count > 0 {
        1
    } else {
        0
    }
}

/// The status that the program exits with: 1 if there are dead rules.
pub fn disputed_status(count: usize) -> (r: i32)
    ensures
        r == if count == 0 {
            0i32
        } else {
            1i32
        },
        r == status_of(count as nat),
{
    if count == 0 {
        0
    } else {
        1
    }
}

} // verus!
