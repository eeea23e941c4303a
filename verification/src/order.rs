//! The order in which the rules of a group are sorted: which pairs of rules must keep
//! their order, by what key the others are compared, and what the result is.
use vstd::prelude::*;

verus! {

use crate::ast::RuleView;
use crate::pattern::{bare_name, certain_prefix, has_double_star, plain, unanchored};
use crate::text::{lemma_seq_less_total, lemma_seq_less_trans, seq_less};

/// The pattern names one file name in which every character stands for itself.
pub open spec fn certain_name(p: Seq<char>) -> bool {
    bare_name(p) && plain(p)
}

/// The patterns may match the same file.
pub open spec fn overlap(a: Seq<char>, b: Seq<char>) -> bool {
    if has_double_star(a) || has_double_star(b) {
        true
    } else if unanchored(a) && unanchored(b) {
        certain_name(a) && certain_name(b) ==> a == b
    } else if unanchored(a) || unanchored(b) {
        true
    } else {
        ||| certain_prefix(a).is_prefix_of(certain_prefix(b))
        ||| certain_prefix(b).is_prefix_of(certain_prefix(a))
    }
}

/// The order of the two rules matters: their owner sets differ, and their patterns may
/// match the same file.
pub open spec fn conflict(a: RuleView, b: RuleView) -> bool {
    a.owners.to_set() != b.owners.to_set() && overlap(a.pattern, b.pattern)
}

/// The key of the rule at `i` is smaller than that of the rule at `j`. Unanchored
/// patterns come first, then the lexicographic order of the patterns decides, and then
/// the order of the rules.
pub open spec fn key_less(rules: Seq<RuleView>, i: int, j: int) -> bool {
    let a = rules[i].pattern;
    let b = rules[j].pattern;
    if unanchored(a) != unanchored(b) {
        unanchored(a)
    } else if a != b {
        seq_less(a, b)
    } else {
        i < j
    }
}

/// All rules that must come before the rule at `j` are among the first `k` of `order`.
pub open spec fn ready(rules: Seq<RuleView>, order: Seq<int>, k: int, j: int) -> bool {
    forall|i: int|
        0 <= i < j && #[trigger] conflict(rules[i], rules[j]) ==> order.take(k).contains(i)
}

/// Each of the numbers below `n`, once.
pub open spec fn permutation(n: nat, order: Seq<int>) -> bool {
    &&& order.len() == n
    &&& forall|k: int| 0 <= k < n ==> 0 <= #[trigger] order[k] < n
    &&& order.no_duplicates()
}

/// An order in which conflicting rules stay as they are.
pub open spec fn valid_order(rules: Seq<RuleView>, order: Seq<int>) -> bool {
    &&& permutation(rules.len(), order)
    &&& forall|k: int| 0 <= k < order.len() ==> ready(rules, order, k, #[trigger] order[k])
}

/// The valid order that takes, at each step, the rule with the smallest key among those
/// that can come next.
pub open spec fn smallest_order(rules: Seq<RuleView>, order: Seq<int>) -> bool {
    &&& valid_order(rules, order)
    &&& forall|k: int, l: int|
        #![trigger order[k], order[l]]
        0 <= k < l < order.len() && ready(rules, order, k, order[l]) ==> key_less(
            rules,
            order[k],
            order[l],
        )
}

/// The numbers of `order` as integers.
pub open spec fn ints(order: Seq<usize>) -> Seq<int> {
    Seq::new(order.len(), |i: int| order[i] as int)
}

/// How many of the first `k` rules must come before the rule at `j` and are not done.
pub open spec fn blockers(rules: Seq<RuleView>, done: Seq<bool>, j: int, k: int) -> nat
    decreases k,
{
    if k <= 0 {
        0
    } else {
        blockers(rules, done, j, k - 1) + if conflict(rules[k - 1], rules[j]) && !done[k - 1] {
            1nat
        } else {
            0nat
        }
    }
}

/// Of two different rules exactly one has the smaller key.
pub proof fn lemma_key_total(rules: Seq<RuleView>, i: int, j: int)
    ensures
        i != j ==> key_less(rules, i, j) || key_less(rules, j, i),
        !(key_less(rules, i, j) && key_less(rules, j, i)),
{
    lemma_seq_less_total(rules[i].pattern, rules[j].pattern);
}

/// The order by keys is transitive.
pub proof fn lemma_key_trans(rules: Seq<RuleView>, i: int, j: int, k: int)
    requires
        key_less(rules, i, j),
        key_less(rules, j, k),
    ensures
        key_less(rules, i, k),
{
    let a = rules[i].pattern;
    let b = rules[j].pattern;
    let c = rules[k].pattern;
    if unanchored(a) == unanchored(b) && unanchored(b) == unanchored(c) && a != b && b != c {
        lemma_seq_less_trans(a, b, c);
        lemma_seq_less_total(a, c);
    }
}

/// A list of fewer than `n` numbers misses one that is below `n`.
pub proof fn lemma_missing(n: nat, order: Seq<int>)
    requires
        order.len() < n,
    ensures
        exists|i: int| 0 <= i < n && !order.contains(i),
    decreases n,
{
    if !order.contains(n - 1) {
        assert(0 <= n - 1 < n);
    } else {
        let k = choose|k: int| 0 <= k < order.len() && order[k] == n - 1;
        let rest = order.remove(k);
        lemma_missing((n - 1) as nat, rest);
        let i = choose|i: int| 0 <= i < n - 1 && !rest.contains(i);
        if order.contains(i) {
            let m = choose|m: int| 0 <= m < order.len() && order[m] == i;
            if m < k {
                assert(rest[m] == i);
            } else {
                assert(rest[m - 1] == i);
            }
        }
        assert(!order.contains(i));
    }
}

/// No rule blocks the rule at `j` if and only if all its conflicting predecessors are done.
pub proof fn lemma_blockers_none(rules: Seq<RuleView>, done: Seq<bool>, j: int, k: int)
    requires
        0 <= k,
    ensures
        blockers(rules, done, j, k) == 0 <==> forall|i: int|
            0 <= i < k && #[trigger] conflict(rules[i], rules[j]) ==> done[i],
    decreases k,
{
    if k > 0 {
        lemma_blockers_none(rules, done, j, k - 1);
        if blockers(rules, done, j, k) == 0 {
            assert forall|i: int| 0 <= i < k && #[trigger] conflict(rules[i], rules[j]) implies done[i] by {}
        } else if blockers(rules, done, j, k - 1) == 0 {
            assert(conflict(rules[k - 1], rules[j]) && !done[k - 1]);
        } else {
            let i = choose|i: int| 0 <= i < k - 1 && #[trigger] conflict(rules[i], rules[j]) && !done[i];
            assert(conflict(rules[i], rules[j]));
        }
    }
}

/// There are at most as many blockers as rules looked at.
pub proof fn lemma_blockers_bound(rules: Seq<RuleView>, done: Seq<bool>, j: int, k: int)
    requires
        0 <= k,
    ensures
        blockers(rules, done, j, k) <= k,
    decreases k,
{
    if k > 0 {
        lemma_blockers_bound(rules, done, j, k - 1);
    }
}

/// Finishing a rule takes it off the blockers of the rules that it blocks.
pub proof fn lemma_blockers_update(rules: Seq<RuleView>, done: Seq<bool>, x: int, j: int, k: int)
    requires
        0 <= k <= done.len(),
        0 <= x < done.len(),
        !done[x],
    ensures
        blockers(rules, done, j, k) == blockers(rules, done.update(x, true), j, k) + if x < k && conflict(
            rules[x],
            rules[j],
        ) {
            1nat
        } else {
            0nat
        },
    decreases k,
{
    if k > 0 {
        lemma_blockers_update(rules, done, x, j, k - 1);
    }
}

} // verus!
