//! What the reports say: each file, each dead rule and each number in them.
use vstd::prelude::*;

verus! {

use crate::ast::{line_of, LineView};
use crate::disputed::{
    dead, dead_below, dead_rule_fits, dead_rules_of, listed, outcome_fits, outcome_of,
    outcomes_fit, outcomes_of_files, overridden, overridden_matches, override_count, overriders,
    overrides_text, overrides_view, rule_heading, total_matches, outcomes_view, DeadRule, numbered,
};
use crate::matcher::{all_matches, last_match, owners_by, CompiledRule};
use crate::numbering::rule_lines;
use crate::text::{decimal, join_words, strings_view};
use crate::who_owns::{in_scope, owned_files, owners_view, query_files, report_text, under, with_slash};

// ---------------------------------------------------------------------------
// Who owns what
// ---------------------------------------------------------------------------

/// The report has one line for each file that has owners, with all its owners, one for each
/// other file exactly if those are asked for, and no others: it says of a file the same
/// whatever files are before and after it.
pub proof fn lemma_report(
    file: Seq<char>,
    owners: Seq<Seq<char>>,
    unowned: bool,
    a: Seq<Seq<char>>,
    a_owners: Seq<Seq<Seq<char>>>,
    b: Seq<Seq<char>>,
    b_owners: Seq<Seq<Seq<char>>>,
)
    requires
        a.len() == a_owners.len(),
        b.len() == b_owners.len(),
    ensures
        report_text(Seq::empty(), Seq::empty(), unowned) == Seq::<char>::empty(),
        owners.len() > 0
            ==> report_text(seq![file], seq![owners], unowned) == file + seq![' '] + join_words(owners)
            + seq!['\n'],
        owners.len() == 0 && unowned
            ==> report_text(seq![file], seq![owners], unowned) == file + " (unowned)\n"@,
        owners.len() == 0 && !unowned
            ==> report_text(seq![file], seq![owners], unowned) == Seq::<char>::empty(),
        report_text(a + b, a_owners + b_owners, unowned) == report_text(a, a_owners, unowned) + report_text(
            b,
            b_owners,
            unowned,
        ),
    decreases b.len(),
{
    reveal_strlit(" ");
    reveal_strlit("\n");
    assert(" "@ == seq![' ']);
    assert("\n"@ == seq!['\n']);
    let none: Seq<char> = seq![];
    let one = seq![file];
    let one_owners = seq![owners];
    assert(report_text(one.take(0), one_owners.take(0), unowned) == none);
    let line = crate::who_owns::file_line(file, owners, unowned);
    assert(none + line == line);
    assert(report_text(one, one_owners, unowned) == line);
    if b.len() == 0 {
        assert(a + b == a);
        assert(a_owners + b_owners == a_owners);
        assert(report_text(a, a_owners, unowned) + none == report_text(a, a_owners, unowned));
    } else {
        let n = b.len() - 1;
        let m = (a + b).len() - 1;
        lemma_report(file, owners, unowned, a, a_owners, b.take(n), b_owners.take(n));
        assert((a + b).take(m) == a + b.take(n));
        assert((a_owners + b_owners).take(m) == a_owners + b_owners.take(n));
        assert(report_text(a + b, a_owners + b_owners, unowned) == report_text(a, a_owners, unowned) + report_text(
            b,
            b_owners,
            unowned,
        ));
    }
}

/// A file counts as owned exactly if it has owners.
pub proof fn lemma_owned_files(owners: Seq<Seq<char>>, a: Seq<Seq<Seq<char>>>, b: Seq<Seq<Seq<char>>>)
    ensures
        owned_files(Seq::empty()) == 0,
        owned_files(seq![owners]) == if owners.len() > 0 {
            1nat
        } else {
            0nat
        },
        owned_files(a + b) == owned_files(a) + owned_files(b),
    decreases b.len(),
{
    let one = seq![owners];
    assert(one.drop_last() == Seq::<Seq<Seq<char>>>::empty());
    assert(owned_files(one.drop_last()) == 0);
    if b.len() == 0 {
        assert(a + b == a);
    } else {
        lemma_owned_files(owners, a, b.drop_last());
        assert((a + b).drop_last() == a + b.drop_last());
    }
}

/// The last line names the three numbers, after an empty line.
pub proof fn lemma_who_owns_summary(owned: nat, unowned: nat, total: nat)
    ensures
        crate::who_owns::summary_text(owned, unowned, total) == seq!['\n'] + decimal(owned) + " owned, "@ + decimal(
            unowned,
        ) + " unowned, "@ + decimal(total) + " total files"@,
{
    reveal_strlit("\n");
    assert("\n"@ == seq!['\n']);
}

/// A directory takes in the files whose paths start with its name and a slash, in order, and
/// no others.
pub proof fn lemma_scope(dir: Seq<char>, prefix: Seq<char>, file: Seq<char>, a: Seq<Seq<char>>, b: Seq<Seq<char>>)
    ensures
        with_slash(dir) == if dir.len() > 0 && dir[dir.len() - 1] == '/' {
            dir
        } else {
            dir + seq!['/']
        },
        in_scope(a, Some(prefix)) == under(a, prefix),
        in_scope(a, None) == a,
        under(Seq::empty(), prefix) == Seq::<Seq<char>>::empty(),
        under(seq![file], prefix) == if prefix.len() <= file.len()
            && file.take(prefix.len() as int) == prefix {
            seq![file]
        } else {
            seq![]
        },
        under(a + b, prefix) == under(a, prefix) + under(b, prefix),
    decreases b.len(),
{
    assert(dir.push('/') == dir + seq!['/']);
    let none: Seq<Seq<char>> = seq![];
    let one = seq![file];
    assert(one.drop_last() == none);
    assert(under(none, prefix) == none);
    if prefix.len() <= file.len() {
        assert(file.subrange(0, prefix.len() as int) == file.take(prefix.len() as int));
    }
    assert(none.push(file) == seq![file]);
    if b.len() == 0 {
        assert(a + b == a);
        assert(under(a, prefix) + none == under(a, prefix));
    } else {
        lemma_scope(dir, prefix, file, a, b.drop_last());
        assert((a + b).drop_last() == a + b.drop_last());
        assert(under(a + b, prefix) == under(a, prefix) + under(b, prefix));
    }
}

/// A query for a file is about that file alone, one for the root about all tracked files,
/// and one for a directory about those of them that are in it.
pub proof fn lemma_query(is_root: bool, rel: Seq<char>, files: Seq<Seq<char>>, file: Seq<char>)
    ensures
        query_files(true, is_root, rel, files) == seq![rel],
        query_files(false, true, rel, files) == files,
        query_files(false, false, rel, files) == under(files, with_slash(rel)),
        query_files(false, false, rel, files).contains(file) ==> files.contains(file),
        files.contains(file) ==> (query_files(false, false, rel, files).contains(file) <==> {
            let dir = if rel.len() > 0 && rel[rel.len() - 1] == '/' {
                rel
            } else {
                rel + seq!['/']
            };
            dir.len() <= file.len() && file.take(dir.len() as int) == dir
        }),
{
    let dir = if rel.len() > 0 && rel[rel.len() - 1] == '/' {
        rel
    } else {
        rel + seq!['/']
    };
    assert(with_slash(rel) == dir);
    lemma_under_has(files, dir, file);
}

proof fn lemma_under_has(files: Seq<Seq<char>>, dir: Seq<char>, file: Seq<char>)
    ensures
        under(files, dir).contains(file) <==> files.contains(file) && dir.len() <= file.len() && file.take(
            dir.len() as int,
        ) == dir,
    decreases files.len(),
{
    if files.len() > 0 {
        let front = files.drop_last();
        let last = files.last();
        lemma_under_has(front, dir, file);
        if dir.len() <= last.len() {
            assert(last.subrange(0, dir.len() as int) == last.take(dir.len() as int));
        }
        let before = under(front, dir);
        let all = under(files, dir);
        if files.contains(file) {
            let i = choose|i: int| 0 <= i < files.len() && files[i] == file;
            if i < front.len() {
                assert(front[i] == file);
                assert(front.contains(file));
            }
        }
        if front.contains(file) {
            let i = choose|i: int| 0 <= i < front.len() && front[i] == file;
            assert(files[i] == file);
        }
        assert(files[files.len() - 1] == last);
        if before.contains(file) {
            let i = choose|i: int| 0 <= i < before.len() && before[i] == file;
            assert(all[i] == file);
        }
        if all.contains(file) {
            let i = choose|i: int| 0 <= i < all.len() && all[i] == file;
            if i < before.len() {
                assert(before[i] == file);
            }
        }
        if all.len() > before.len() {
            assert(all[before.len() as int] == last);
        }
    }
}

// ---------------------------------------------------------------------------
// Line numbers
// ---------------------------------------------------------------------------

/// The line numbers, counted from 1, are those of all lines that hold a rule, in order.
pub proof fn lemma_rule_numbers(raw: Seq<Seq<char>>)
    requires
        raw.len() <= usize::MAX,
    ensures
        forall|n: usize| #[trigger] rule_lines(raw).contains(n) <==> 1 <= n <= raw.len() && (line_of(
            raw[n - 1],
        ) matches Some(LineView::Rule(_))),
        forall|k: int, l: int| 0 <= k < l < rule_lines(raw).len() ==> #[trigger] rule_lines(raw)[k]
            < #[trigger] rule_lines(raw)[l],
    decreases raw.len(),
{
    let all = rule_lines(raw);
    if raw.len() > 0 {
        let front = raw.drop_last();
        let before = rule_lines(front);
        let m = raw.len() as usize;
        lemma_rule_numbers(front);
        assert forall|n: usize| #[trigger] all.contains(n)
            <==> 1 <= n <= raw.len() && (line_of(raw[n - 1]) matches Some(
            LineView::Rule(_),
        )) by {
            assert(before.contains(n) <==> 1 <= n <= front.len() && (line_of(front[n - 1]) matches Some(
                LineView::Rule(_),
            )));
            if all.contains(n) {
                let k = choose|k: int| 0 <= k < all.len() && all[k] == n;
                if k < before.len() {
                    assert(before[k] == n);
                    assert(before.contains(n));
                    assert(front[n - 1] == raw[n - 1]);
                }
            }
            if 1 <= n <= raw.len() && (line_of(raw[n - 1]) matches Some(LineView::Rule(_))) {
                if n < m {
                    assert(front[n - 1] == raw[n - 1]);
                    assert(before.contains(n));
                    let k = choose|k: int| 0 <= k < before.len() && before[k] == n;
                    assert(all[k] == n);
                } else {
                    assert(all[before.len() as int] == n);
                }
            }
        }
        assert forall|k: int, l: int| 0 <= k < l < all.len()
            implies #[trigger] all[k] < #[trigger] all[l] by {
            if l < before.len() {
                assert(before[k] < before[l]);
            } else {
                assert(before.contains(before[k]));
            }
        }
    }
}

// ---------------------------------------------------------------------------
// Outcomes
// ---------------------------------------------------------------------------

/// Of a path, the rules that match it are listed in order, each once. With a rule stands the
/// last of them, unless that has the same owners in the same order.
pub proof fn lemma_outcome(rules: Seq<CompiledRule>, path: Seq<char>, k: int)
    requires
        rules.len() <= usize::MAX,
        0 <= k < outcome_of(rules, path).len(),
    ensures
        outcome_of(rules, path).len() == all_matches(rules, path).len(),
        outcome_of(rules, path)[k].0 == all_matches(rules, path)[k],
        ({
            let rule = rules[outcome_of(rules, path)[k].0 as int];
            let last = all_matches(rules, path)[all_matches(rules, path).len() - 1];
            outcome_of(rules, path)[k].1 == if strings_view(rule.owners@) == strings_view(rules[last as int].owners@) {
                None
            } else {
                Some(last)
            }
        }),
{
    crate::ownership_laws::lemma_winner_is_last(rules, path);
}

/// The owners of a path are those of the last rule that matches it, and there are none if
/// no rule matches.
pub proof fn lemma_owners(rules: Seq<CompiledRule>, path: Seq<char>, k: int)
    ensures
        0 <= k < rules.len() && rules[k].matches(path)
            && (forall|i: int| k < i < rules.len() ==> !(#[trigger] rules[i]).matches(path))
            ==> owners_by(rules, path) == strings_view(rules[k].owners@),
        (forall|i: int| 0 <= i < rules.len() ==> !(#[trigger] rules[i]).matches(path))
            ==> owners_by(rules, path)
            == Seq::<Seq<char>>::empty(),
{
    crate::ownership_laws::lemma_last_match(rules, path);
    let l = last_match(rules, path);
    if l >= 0 {
        assert(rules[l].matches(path));
    }
}

/// The files that no rule matches are left out, and all others are counted.
pub proof fn lemma_outcomes_of_files(
    rules: Seq<CompiledRule>,
    file: Seq<char>,
    a: Seq<Seq<char>>,
    b: Seq<Seq<char>>,
)
    ensures
        outcomes_of_files(rules, Seq::empty()) == Seq::<Seq<(usize, Option<usize>)>>::empty(),
        outcomes_of_files(rules, seq![file]) == if all_matches(rules, file).len() > 0 {
            seq![outcome_of(rules, file)]
        } else {
            seq![]
        },
        outcomes_of_files(rules, a + b) == outcomes_of_files(rules, a) + outcomes_of_files(rules, b),
    decreases b.len(),
{
    let none: Seq<Seq<char>> = seq![];
    let one = seq![file];
    assert(one.drop_last() == none);
    assert(outcomes_of_files(rules, none) == Seq::<Seq<(usize, Option<usize>)>>::empty());
    assert(outcomes_of_files(rules, none).push(outcome_of(rules, file)) == seq![outcome_of(rules, file)]);
    assert(outcome_of(rules, file).len() == all_matches(rules, file).len());
    if b.len() == 0 {
        assert(a + b == a);
        assert(outcomes_of_files(rules, a) + outcomes_of_files(rules, b) == outcomes_of_files(rules, a));
    } else {
        lemma_outcomes_of_files(rules, file, a, b.drop_last());
        assert((a + b).drop_last() == a + b.drop_last());
        assert(outcomes_of_files(rules, a + b) == outcomes_of_files(rules, a) + outcomes_of_files(rules, b));
    }
}

/// The counts go over all outcomes: a rule matches where it is listed, and is overridden
/// where another rule stands with it.
pub proof fn lemma_counts(
    outcome: Seq<(usize, Option<usize>)>,
    a: Seq<Seq<(usize, Option<usize>)>>,
    b: Seq<Seq<(usize, Option<usize>)>>,
    rule: int,
    winner: int,
)
    ensures
        total_matches(seq![outcome], rule) == if exists|k: int|
            0 <= k < outcome.len() && (#[trigger] outcome[k]).0 == rule {
            1nat
        } else {
            0nat
        },
        overridden_matches(seq![outcome], rule) == if exists|k: int|
            0 <= k < outcome.len() && (#[trigger] outcome[k]).0 == rule && outcome[k].1 is Some {
            1nat
        } else {
            0nat
        },
        override_count(seq![outcome], rule, winner) == if exists|k: int|
            0 <= k < outcome.len() && (#[trigger] outcome[k]).0 == rule
                && (outcome[k].1 matches Some(w) && w == winner) {
            1nat
        } else {
            0nat
        },
        total_matches(Seq::empty(), rule) == 0,
        overridden_matches(Seq::empty(), rule) == 0,
        override_count(Seq::empty(), rule, winner) == 0,
        total_matches(a + b, rule) == total_matches(a, rule) + total_matches(b, rule),
        overridden_matches(a + b, rule) == overridden_matches(a, rule) + overridden_matches(b, rule),
        override_count(a + b, rule, winner) == override_count(a, rule, winner) + override_count(b, rule, winner),
    decreases b.len(),
{
    let none: Seq<Seq<(usize, Option<usize>)>> = seq![];
    let one = seq![outcome];
    assert(one.drop_last() == none);
    assert(one.last() == outcome);
    assert(total_matches(none, rule) == 0);
    assert(overridden_matches(none, rule) == 0);
    assert(override_count(none, rule, winner) == 0);
    if b.len() == 0 {
        assert(a + b == a);
    } else {
        lemma_counts(outcome, a, b.drop_last(), rule, winner);
        assert((a + b).drop_last() == a + b.drop_last());
    }
}

proof fn lemma_count_order(n: nat, outcomes: Seq<Seq<(usize, Option<usize>)>>, rule: int)
    ensures
        overridden_matches(outcomes, rule) <= total_matches(outcomes, rule),
        total_matches(outcomes, rule) > 0
            <==> exists|f: int| 0 <= f < outcomes.len() && listed(#[trigger] outcomes[f], rule),
        overridden_matches(outcomes, rule) == total_matches(outcomes, rule) <==> forall|f: int|
            0 <= f < outcomes.len() && listed(#[trigger] outcomes[f], rule) ==> overridden(outcomes[f], rule),
    decreases outcomes.len(),
{
    if outcomes.len() > 0 {
        let front = outcomes.drop_last();
        let m = front.len() as int;
        lemma_count_order(n, front, rule);
        assert(outcomes[m] == outcomes.last());
        let o = outcomes[m];
        if overridden(o, rule) {
            let k = choose|k: int| 0 <= k < o.len() && (#[trigger] o[k]).0 == rule && o[k].1 is Some;
            assert(o[k].0 == rule);
            assert(listed(o, rule));
        }
        assert forall|f: int| 0 <= f < m implies front[f] == #[trigger] outcomes[f] by {}
        if exists|f: int| 0 <= f < front.len() && listed(#[trigger] front[f], rule) {
            let f = choose|f: int| 0 <= f < front.len() && listed(#[trigger] front[f], rule);
            assert(listed(outcomes[f], rule));
        }
        if exists|f: int| 0 <= f < outcomes.len() && listed(#[trigger] outcomes[f], rule) {
            let f = choose|f: int| 0 <= f < outcomes.len() && listed(#[trigger] outcomes[f], rule);
            if f < m {
                assert(listed(front[f], rule));
            }
        }
        if forall|f: int| 0 <= f < outcomes.len() && listed(#[trigger] outcomes[f], rule)
            ==> overridden(outcomes[f], rule) {
            assert forall|f: int| 0 <= f < front.len() && listed(#[trigger] front[f], rule)
                implies overridden(
                front[f],
                rule,
            ) by {
                assert(listed(outcomes[f], rule));
            }
            assert(listed(outcomes[m], rule) ==> overridden(outcomes[m], rule));
        }
        if overridden_matches(outcomes, rule) == total_matches(outcomes, rule) {
            assert forall|f: int| 0 <= f < outcomes.len() && listed(#[trigger] outcomes[f], rule)
                implies overridden(
                outcomes[f],
                rule,
            ) by {
                if f < m {
                    assert(listed(front[f], rule));
                }
            }
        }
    }
}

/// The entry names the rule.
pub open spec fn names(entry: (usize, Option<usize>), rule: int) -> bool {
    entry.0 == rule
}

/// A rule is dead exactly if some outcome lists it, and wherever it is listed, another rule
/// stands with it.
pub proof fn lemma_dead(outcomes: Seq<Seq<(usize, Option<usize>)>>, rule: int)
    requires
        forall|f: int, k: int, l: int|
            #![trigger outcomes[f][k], outcomes[f][l]]
            0 <= f < outcomes.len() && 0 <= k < l < outcomes[f].len()
                ==> outcomes[f][k].0 != outcomes[f][l].0,
    ensures
        dead(outcomes, rule) <==> {
            &&& exists|f: int, k: int|
                0 <= f < outcomes.len() && 0 <= k < outcomes[f].len()
                    && names(#[trigger] outcomes[f][k], rule)
            &&& forall|f: int, k: int|
                0 <= f < outcomes.len() && 0 <= k < outcomes[f].len()
                    && names(#[trigger] outcomes[f][k], rule)
                    ==> outcomes[f][k].1 is Some
        },
{
    lemma_count_order(0, outcomes, rule);
    if exists|f: int| 0 <= f < outcomes.len() && listed(#[trigger] outcomes[f], rule) {
        let f = choose|f: int| 0 <= f < outcomes.len() && listed(#[trigger] outcomes[f], rule);
        let o = outcomes[f];
        let k = choose|k: int| 0 <= k < o.len() && (#[trigger] o[k]).0 == rule;
        assert(names(outcomes[f][k], rule));
    }
    if exists|f: int, k: int|
        0 <= f < outcomes.len() && 0 <= k < outcomes[f].len() && names(#[trigger] outcomes[f][k], rule) {
        let (f, k) = choose|f: int, k: int|
            0 <= f < outcomes.len() && 0 <= k < outcomes[f].len() && names(#[trigger] outcomes[f][k], rule);
        let o = outcomes[f];
        assert(o[k].0 == rule);
        assert(listed(outcomes[f], rule));
    }
    if dead(outcomes, rule) {
        assert forall|f: int, k: int|
            0 <= f < outcomes.len() && 0 <= k < outcomes[f].len() && names(#[trigger] outcomes[f][k], rule)
                implies outcomes[f][k].1 is Some by {
            let o = outcomes[f];
            assert(o[k].0 == rule);
            assert(listed(outcomes[f], rule));
            assert(overridden(outcomes[f], rule));
            let l = choose|l: int| 0 <= l < o.len() && (#[trigger] o[l]).0 == rule && o[l].1 is Some;
            if k < l {
                assert(outcomes[f][k].0 != outcomes[f][l].0);
            } else if l < k {
                assert(outcomes[f][l].0 != outcomes[f][k].0);
            }
        }
    }
    if forall|f: int, k: int|
        0 <= f < outcomes.len() && 0 <= k < outcomes[f].len() && names(#[trigger] outcomes[f][k], rule)
            ==> outcomes[f][k].1 is Some {
        assert forall|f: int| 0 <= f < outcomes.len() && listed(#[trigger] outcomes[f], rule)
            implies overridden(
            outcomes[f],
            rule,
        ) by {
            let o = outcomes[f];
            let k = choose|k: int| 0 <= k < o.len() && (#[trigger] o[k]).0 == rule;
            assert(names(outcomes[f][k], rule));
        }
    }
}

proof fn lemma_dead_below(outcomes: Seq<Seq<(usize, Option<usize>)>>, n: int)
    ensures
        forall|r: int| #[trigger] dead_below(outcomes, n).contains(r) <==> 0 <= r < n && dead(outcomes, r),
        forall|k: int, l: int| 0 <= k < l < dead_below(outcomes, n).len()
            ==> #[trigger] dead_below(outcomes, n)[k]
            < #[trigger] dead_below(outcomes, n)[l],
    decreases n,
{
    if n > 0 {
        lemma_dead_below(outcomes, n - 1);
        let before = dead_below(outcomes, n - 1);
        let all = dead_below(outcomes, n);
        assert forall|r: int| #[trigger] all.contains(r) <==> 0 <= r < n && dead(outcomes, r) by {
            assert(before.contains(r) <==> 0 <= r < n - 1 && dead(outcomes, r));
            if all.contains(r) {
                let k = choose|k: int| 0 <= k < all.len() && all[k] == r;
                if k < before.len() {
                    assert(before[k] == r);
                    assert(before.contains(r));
                }
            }
            if 0 <= r < n && dead(outcomes, r) {
                if r < n - 1 {
                    let k = choose|k: int| 0 <= k < before.len() && before[k] == r;
                    assert(all[k] == r);
                } else {
                    assert(all[before.len() as int] == r);
                }
            }
        }
        assert forall|k: int, l: int| 0 <= k < l < all.len()
            implies #[trigger] all[k] < #[trigger] all[l] by {
            if l < before.len() {
                assert(before[k] < before[l]);
            } else {
                assert(before.contains(before[k]));
            }
        }
    }
}

/// Some element of the list is about the rule.
pub open spec fn reported(found: Seq<DeadRule>, rule: int) -> bool {
    exists|i: int| 0 <= i < found.len() && (#[trigger] found[i]).rule == rule
}

/// The list holds exactly the dead rules, in order, each with the number of files that it
/// matches.
pub proof fn lemma_dead_rules(outcomes: Seq<Seq<(usize, Option<usize>)>>, n: int, found: Seq<DeadRule>)
    requires
        dead_rules_of(outcomes, n, found),
    ensures
        forall|r: int| 0 <= r < n ==> (#[trigger] reported(found, r) <==> dead(outcomes, r)),
        forall|k: int, l: int| 0 <= k < l < found.len()
            ==> (#[trigger] found[k]).rule < (#[trigger] found[l]).rule,
        forall|k: int| 0 <= k < found.len()
            ==> (#[trigger] found[k]).rule < n && found[k].total == total_matches(
            outcomes,
            found[k].rule as int,
        ),
{
    lemma_dead_below(outcomes, n);
    let list = dead_below(outcomes, n);
    assert forall|r: int| 0 <= r < n implies (#[trigger] reported(found, r) <==> dead(outcomes, r)) by {
        assert(list.contains(r) <==> dead(outcomes, r));
        if reported(found, r) {
            let i = choose|i: int| 0 <= i < found.len() && (#[trigger] found[i]).rule == r;
            assert(list[i] == r);
            assert(list.contains(r));
        }
        if dead(outcomes, r) {
            let i = choose|i: int| 0 <= i < list.len() && list[i] == r;
            assert(found[i].rule == r);
        }
    }
    assert forall|k: int, l: int| 0 <= k < l < found.len()
        implies (#[trigger] found[k]).rule < (#[trigger] found[l]).rule by {
        assert(list[k] < list[l]);
    }
}

/// Some element of the list is about the winner and has that number.
pub open spec fn overridden_times(overrides: Seq<(usize, usize)>, winner: int, count: nat) -> bool {
    exists|i: int| 0 <= i < overrides.len() && (#[trigger] overrides[i]).0 == winner
        && overrides[i].1 == count
}

proof fn lemma_overriders(outcomes: Seq<Seq<(usize, Option<usize>)>>, rule: int, n: int)
    ensures
        forall|w: int, c: nat| #[trigger] overriders(outcomes, rule, n).contains((w, c))
            <==> 0 <= w < n && c > 0 && c
            == override_count(outcomes, rule, w),
        forall|k: int, l: int| 0 <= k < l < overriders(outcomes, rule, n).len() ==> (#[trigger] overriders(
            outcomes,
            rule,
            n,
        )[k]).0 < (#[trigger] overriders(outcomes, rule, n)[l]).0,
    decreases n,
{
    if n > 0 {
        lemma_overriders(outcomes, rule, n - 1);
        let before = overriders(outcomes, rule, n - 1);
        let all = overriders(outcomes, rule, n);
        let count = override_count(outcomes, rule, n - 1);
        assert forall|w: int, c: nat| #[trigger] all.contains((w, c))
            <==> 0 <= w < n && c > 0 && c == override_count(
            outcomes,
            rule,
            w,
        ) by {
            assert(before.contains((w, c))
                <==> 0 <= w < n - 1 && c > 0 && c == override_count(outcomes, rule, w));
            if all.contains((w, c)) {
                let k = choose|k: int| 0 <= k < all.len() && all[k] == (w, c);
                if k < before.len() {
                    assert(before[k] == (w, c));
                    assert(before.contains((w, c)));
                }
            }
            if 0 <= w < n && c > 0 && c == override_count(outcomes, rule, w) {
                if w < n - 1 {
                    let k = choose|k: int| 0 <= k < before.len() && before[k] == (w, c);
                    assert(all[k] == (w, c));
                } else {
                    assert(all[before.len() as int] == (w, c));
                }
            }
        }
        assert forall|k: int, l: int| 0 <= k < l < all.len()
            implies (#[trigger] all[k]).0 < (#[trigger] all[l]).0 by {
            if l < before.len() {
                assert(before[k].0 < before[l].0);
            } else {
                assert(before.contains((before[k].0, before[k].1)));
            }
        }
    }
}

/// With a dead rule stand exactly the rules that override it, in order, each with the number
/// of files on which it does.
pub proof fn lemma_dead_rule_overrides(
    outcomes: Seq<Seq<(usize, Option<usize>)>>,
    n: int,
    found: Seq<DeadRule>,
    i: int,
)
    requires
        dead_rules_of(outcomes, n, found),
        0 <= i < found.len(),
    ensures
        forall|w: int, c: nat| #[trigger] overridden_times(found[i].overrides@, w, c)
            <==> 0 <= w < n && c > 0 && c
            == override_count(outcomes, found[i].rule as int, w),
        forall|k: int, l: int| 0 <= k < l < found[i].overrides@.len()
            ==> (#[trigger] found[i].overrides@[k]).0 < (
        #[trigger] found[i].overrides@[l]).0,
{
    let rule = found[i].rule as int;
    let list = overriders(outcomes, rule, n);
    let given = found[i].overrides@;
    lemma_overriders(outcomes, rule, n);
    assert(overrides_view(given) == list);
    assert forall|w: int, c: nat| #[trigger] overridden_times(given, w, c) <==> 0 <= w < n && c > 0 && c
        == override_count(outcomes, rule, w) by {
        assert(list.contains((w, c)) <==> 0 <= w < n && c > 0 && c == override_count(outcomes, rule, w));
        if overridden_times(given, w, c) {
            let k = choose|k: int| 0 <= k < given.len() && (#[trigger] given[k]).0 == w && given[k].1 == c;
            assert(list[k] == (w, c));
            assert(list.contains((w, c)));
        }
        if list.contains((w, c)) {
            let k = choose|k: int| 0 <= k < list.len() && list[k] == (w, c);
            assert(overrides_view(given)[k] == (w, c));
            assert(given[k].0 == w);
        }
    }
    assert forall|k: int, l: int| 0 <= k < l < given.len()
        implies (#[trigger] given[k]).0 < (#[trigger] given[l]).0 by {
        assert(list[k].0 < list[l].0);
        assert(overrides_view(given)[k].0 == given[k].0);
        assert(overrides_view(given)[l].0 == given[l].0);
    }
}

// ---------------------------------------------------------------------------
// The report on dead rules
// ---------------------------------------------------------------------------

/// The report says of a dead rule its line, pattern and owners, the number of files, and
/// the same of each rule that overrides it, whatever rules are before and after it.
pub proof fn lemma_dead_report(
    rules: Seq<CompiledRule>,
    line_numbers: Seq<usize>,
    one: DeadRule,
    a: Seq<DeadRule>,
    b: Seq<DeadRule>,
)
    ensures
        crate::disputed::report_text(rules, line_numbers, Seq::empty()) == Seq::<char>::empty(),
        ({
            let rule = rules[one.rule as int];
            crate::disputed::report_text(rules, line_numbers, seq![one]) == "line "@ + decimal(
                line_numbers[rule.position as int] as nat,
            ) + ": "@ + rule.pattern@ + seq![' '] + join_words(strings_view(rule.owners@)) + " is fully overridden ("@
                + decimal(one.total as nat) + " files):\n"@ + overrides_text(rules, line_numbers, one.overrides@) + seq![
                '\n',
            ]
        }),
        crate::disputed::report_text(rules, line_numbers, a + b) == crate::disputed::report_text(
            rules,
            line_numbers,
            a,
        ) + crate::disputed::report_text(rules, line_numbers, b),
    decreases b.len(),
{
    reveal_strlit(" ");
    reveal_strlit("\n");
    assert(" "@ == seq![' ']);
    assert("\n"@ == seq!['\n']);
    let none: Seq<DeadRule> = seq![];
    let single = seq![one];
    assert(single.drop_last() == none);
    assert(crate::disputed::report_text(rules, line_numbers, none) == Seq::<char>::empty());
    let text = crate::disputed::dead_rule_text(rules, line_numbers, one);
    assert(Seq::<char>::empty() + text == text);
    assert(crate::disputed::report_text(rules, line_numbers, single) == text);
    if b.len() == 0 {
        assert(a + b == a);
        assert(crate::disputed::report_text(rules, line_numbers, a) + Seq::<char>::empty()
            == crate::disputed::report_text(rules, line_numbers, a));
    } else {
        lemma_dead_report(rules, line_numbers, one, a, b.drop_last());
        assert((a + b).drop_last() == a + b.drop_last());
        assert(crate::disputed::report_text(rules, line_numbers, a + b) == crate::disputed::report_text(
            rules,
            line_numbers,
            a,
        ) + crate::disputed::report_text(rules, line_numbers, b));
    }
}

/// The lines on the rules that override a dead rule: one for each, indented, with its line,
/// pattern, owners and number of files.
pub proof fn lemma_overrides_report(
    rules: Seq<CompiledRule>,
    line_numbers: Seq<usize>,
    winner: usize,
    count: usize,
    a: Seq<(usize, usize)>,
    b: Seq<(usize, usize)>,
)
    ensures
        overrides_text(rules, line_numbers, Seq::empty()) == Seq::<char>::empty(),
        ({
            let rule = rules[winner as int];
            overrides_text(rules, line_numbers, seq![(winner, count)]) == "  line "@ + decimal(
                line_numbers[rule.position as int] as nat,
            ) + ": "@ + rule.pattern@ + seq![' '] + join_words(strings_view(rule.owners@)) + " ("@ + decimal(
                count as nat,
            ) + " files)\n"@
        }),
        overrides_text(rules, line_numbers, a + b) == overrides_text(rules, line_numbers, a) + overrides_text(
            rules,
            line_numbers,
            b,
        ),
    decreases b.len(),
{
    reveal_strlit(" ");
    reveal_strlit("  ");
    reveal_strlit("line ");
    reveal_strlit("  line ");
    assert(" "@ == seq![' ']);
    assert("  "@ + "line "@ == "  line "@);
    let none: Seq<(usize, usize)> = seq![];
    let single = seq![(winner, count)];
    assert(single.drop_last() == none);
    assert(overrides_text(rules, line_numbers, none) == Seq::<char>::empty());
    let rule = rules[winner as int];
    let number = decimal(line_numbers[rule.position as int] as nat);
    let owners = join_words(strings_view(rule.owners@));
    assert("  "@ + rule_heading(rule, line_numbers) == "  line "@ + number + ": "@ + rule.pattern@ + seq![' '] + owners);
    let line = "  "@ + rule_heading(rule, line_numbers) + " ("@ + decimal(count as nat) + " files)\n"@;
    assert(Seq::<char>::empty() + line == line);
    assert(overrides_text(rules, line_numbers, single) == line);
    if b.len() == 0 {
        assert(a + b == a);
        assert(overrides_text(rules, line_numbers, a) + Seq::<char>::empty() == overrides_text(rules, line_numbers, a));
    } else {
        lemma_overrides_report(rules, line_numbers, winner, count, a, b.drop_last());
        assert((a + b).drop_last() == a + b.drop_last());
        assert(overrides_text(rules, line_numbers, a + b) == overrides_text(rules, line_numbers, a) + overrides_text(
            rules,
            line_numbers,
            b,
        ));
    }
}

/// The last line counts the dead rules, or says that there are none, and the program fails
/// exactly if there are any.
pub proof fn lemma_disputed_summary(count: nat)
    ensures
        crate::disputed::summary_text(0) == "No disputed rules found."@,
        count > 0 ==> crate::disputed::summary_text(count) == decimal(count) + " dead rules found."@,
        crate::disputed::status_of(0) == 0,
        count > 0 ==> crate::disputed::status_of(count) == 1,
{
}

/// Outcomes fit the rules exactly if they list each rule at most once, in order, and name no
/// others; a dead rule fits if neither it nor an overriding rule is beyond the rules; and
/// rules are numbered if each position in the file has a line number.
pub proof fn lemma_fits(
    n: nat,
    outcomes: Seq<Seq<(usize, Option<usize>)>>,
    one: DeadRule,
    rules: Seq<CompiledRule>,
    line_numbers: Seq<usize>,
)
    ensures
        outcomes_fit(n, outcomes) <==> {
            &&& forall|f: int, k: int|
                0 <= f < outcomes.len() && 0 <= k < outcomes[f].len()
                    ==> (#[trigger] outcomes[f][k]).0 < n && (
                outcomes[f][k].1 matches Some(w) ==> w < n)
            &&& forall|f: int, k: int, l: int|
                #![trigger outcomes[f][k], outcomes[f][l]]
                0 <= f < outcomes.len() && 0 <= k < l < outcomes[f].len()
                    ==> outcomes[f][k].0 < outcomes[f][l].0
        },
        dead_rule_fits(n, one) <==> one.rule < n && forall|k: int|
            0 <= k < one.overrides@.len() ==> (#[trigger] one.overrides@[k]).0 < n,
        numbered(rules, line_numbers) <==> forall|i: int|
            0 <= i < rules.len() ==> (#[trigger] rules[i]).position < line_numbers.len(),
{
    if outcomes_fit(n, outcomes) {
        assert forall|f: int, k: int| 0 <= f < outcomes.len() && 0 <= k < outcomes[f].len() implies (
        #[trigger] outcomes[f][k]).0 < n && (outcomes[f][k].1 matches Some(w) ==> w < n) by {
            assert(outcome_fits(n, outcomes[f]));
        }
        assert forall|f: int, k: int, l: int|
            #![trigger outcomes[f][k], outcomes[f][l]]
            0 <= f < outcomes.len() && 0 <= k < l < outcomes[f].len()
                implies outcomes[f][k].0 < outcomes[f][l].0 by {
            assert(outcome_fits(n, outcomes[f]));
        }
    }
}

/// The outcomes and the owners of files are seen as they are, one by one.
pub proof fn lemma_file_views(per_file: Seq<Vec<(usize, Option<usize>)>>, owners: Seq<Vec<String>>, f: int, k: int)
    ensures
        outcomes_view(per_file).len() == per_file.len(),
        0 <= f < per_file.len() ==> outcomes_view(per_file)[f] == per_file[f]@,
        owners_view(owners).len() == owners.len(),
        0 <= f < owners.len() ==> owners_view(owners)[f].len() == owners[f]@.len(),
        0 <= f < owners.len() && 0 <= k < owners[f]@.len() ==> owners_view(owners)[f][k] == owners[f]@[k]@,
{
}

} // verus!
