//! What sorting promises: the order is the lexicographically smallest one that keeps
//! conflicting rules as they are, no line is lost or changed, and sorting a second time
//! changes nothing.
use vstd::prelude::*;

verus! {

use crate::ast::{file_of, LineView, Rule, RuleView};
use crate::formatter::format_of;
use crate::matcher::{rules_of, rules_of_lines, rules_view};
use crate::order::{
    conflict, key_less, lemma_key_total, overlap, permutation, ready, smallest_order, valid_order,
};
use crate::pattern::unanchored;
use crate::roundtrip::{
    lemma_format_reads_back, lemma_parsed_well_formed, well_formed, well_formed_group,
    well_formed_line,
};
use crate::sorter::{
    assembled, entries_view, entry_lines, entry_rules, group_in_order, parts_of, reordered,
    sorted_file, sorted_group, Entry, EntryView, PartsView,
};
use crate::text_laws::{lemma_lexicographic, smaller_at};

/// The rules in the given order.
pub open spec fn rules_in_order(rules: Seq<RuleView>, order: Seq<int>) -> Seq<RuleView> {
    Seq::new(order.len(), |k: int| rules[order[k]])
}

/// The order in which nothing moves.
pub open spec fn identity(n: nat) -> Seq<int> {
    Seq::new(n, |i: int| i)
}

// ---------------------------------------------------------------------------
// The order
// ---------------------------------------------------------------------------

/// Every number below `n` is in a permutation.
pub proof fn lemma_permutation_has(n: nat, order: Seq<int>, i: int)
    requires
        permutation(n, order),
        0 <= i < n,
    ensures
        order.contains(i),
{
    let range = vstd::set_lib::set_int_range(0, n as int);
    vstd::set_lib::lemma_int_range(0, n as int);
    order.unique_seq_to_set();
    assert forall|x: int| order.to_set().contains(x) implies range.contains(x) by {
        assert(order.contains(x));
    }
    vstd::set_lib::lemma_subset_equality(order.to_set(), range);
    assert(range.contains(i));
    assert(order.to_set().contains(i));
}

/// The sorted order is the lexicographically smallest valid one: where another valid
/// order first differs from it, the other takes a rule with a larger key.
pub proof fn lemma_smallest(rules: Seq<RuleView>, order: Seq<int>, other: Seq<int>)
    requires
        smallest_order(rules, order),
        valid_order(rules, other),
    ensures
        order == other || exists|k: int|
            0 <= k < rules.len() && order.take(k) == other.take(k) && #[trigger] key_less(
                rules,
                order[k],
                other[k],
            ),
{
    if order != other {
        assert(order.take(0) == other.take(0));
        lemma_first_difference(order, other, 0);
        let k = choose|k: int| 0 <= k < order.len() && #[trigger] order[k] != other[k]
            && order.take(k) == other.take(k);
        let j = other[k];
        lemma_permutation_has(rules.len(), order, j);
        let l = choose|l: int| 0 <= l < order.len() && order[l] == j;
        if l < k {
            assert(order.take(k)[l] == j);
            assert(other.take(k)[l] == j);
            assert(other[l] == other[k]);
        }
        assert(ready(rules, other, k, other[k]));
        assert(ready(rules, order, k, order[l]));
        assert(key_less(rules, order[k], other[k]));
    }
}

proof fn lemma_first_difference(a: Seq<int>, b: Seq<int>, from: int)
    requires
        a.len() == b.len(),
        0 <= from <= a.len(),
        a != b,
        a.take(from) == b.take(from),
    ensures
        exists|k: int| 0 <= k < a.len() && #[trigger] a[k] != b[k] && a.take(k) == b.take(k),
    decreases a.len() - from,
{
    if from == a.len() {
        assert(a.take(from) == a);
        assert(b.take(from) == b);
    } else if a[from] == b[from] {
        assert(a.take(from + 1) == a.take(from).push(a[from]));
        assert(b.take(from + 1) == b.take(from).push(b[from]));
        lemma_first_difference(a, b, from + 1);
    }
}

/// There is only one sorted order.
pub proof fn lemma_order_unique(rules: Seq<RuleView>, a: Seq<int>, b: Seq<int>)
    requires
        smallest_order(rules, a),
        smallest_order(rules, b),
    ensures
        a == b,
{
    lemma_smallest(rules, a, b);
    lemma_smallest(rules, b, a);
    if a != b {
        let k = choose|k: int| 0 <= k < rules.len() && a.take(k) == b.take(k)
            && #[trigger] key_less(rules, a[k], b[k]);
        let l = choose|l: int| 0 <= l < rules.len() && b.take(l) == a.take(l)
            && #[trigger] key_less(rules, b[l], a[l]);
        lemma_key_total(rules, a[k], b[k]);
        lemma_key_total(rules, b[l], a[l]);
        lemma_key_total(rules, a[k], a[k]);
        lemma_key_total(rules, a[l], a[l]);
        if k < l {
            assert(b.take(l)[k] == a.take(l)[k]);
        } else if l < k {
            assert(b.take(k)[l] == a.take(k)[l]);
        }
    }
}

/// Conflicting rules keep their order: in a valid order, the one that was first stays
/// first.
pub proof fn lemma_conflicts_stay(rules: Seq<RuleView>, order: Seq<int>, k: int, l: int)
    requires
        valid_order(rules, order),
        0 <= k < order.len(),
        0 <= l < order.len(),
        order[k] < order[l],
        conflict(rules[order[k]], rules[order[l]]),
    ensures
        k < l,
{
    assert(ready(rules, order, l, order[l]));
    let i = order[k];
    assert(order.take(l).contains(i));
    let m = choose|m: int| 0 <= m < l && order.take(l)[m] == i;
    assert(order[m] == order[k]);
}

/// Rules that are sorted already stay as they are.
proof fn lemma_sorted_is_smallest(rules: Seq<RuleView>, order: Seq<int>)
    requires
        smallest_order(rules, order),
    ensures
        smallest_order(rules_in_order(rules, order), identity(rules.len())),
{
    let again = rules_in_order(rules, order);
    let id = identity(rules.len());
    assert forall|k: int| 0 <= k < id.len() implies ready(again, id, k, #[trigger] id[k]) by {
        assert forall|i: int| 0 <= i < id[k] && #[trigger] conflict(again[i], again[id[k]])
            implies id.take(k).contains(i) by {
            assert(id.take(k)[i] == i);
        }
    }
    assert forall|k: int, l: int|
        #![trigger id[k], id[l]]
        0 <= k < l < id.len() && ready(again, id, k, id[l]) implies key_less(again, id[k], id[l]) by {
        let j = order[l];
        assert(ready(rules, order, k, j)) by {
            assert forall|i: int| 0 <= i < j && #[trigger] conflict(rules[i], rules[j])
                implies order.take(k).contains(i) by {
                assert(ready(rules, order, l, j));
                assert(order.take(l).contains(i));
                let m = choose|m: int| 0 <= m < l && order.take(l)[m] == i;
                assert(again[m] == rules[i]);
                assert(again[l] == rules[j]);
                assert(conflict(again[m], again[id[l]]));
                assert(id.take(k).contains(m));
                assert(order.take(k)[m] == i);
            }
        }
        assert(key_less(rules, order[k], order[l]));
    }
}

// ---------------------------------------------------------------------------
// Groups taken apart
// ---------------------------------------------------------------------------

spec fn all_comments(lines: Seq<LineView>) -> bool {
    forall|i: int| 0 <= i < lines.len() ==> #[trigger] lines[i] is Comment
}

spec fn comments_only(parts: PartsView) -> bool {
    &&& all_comments(parts.header)
    &&& all_comments(parts.trailing)
    &&& forall|i: int| 0 <= i < parts.entries.len()
        ==> all_comments((#[trigger] parts.entries[i]).leading_comments)
}

proof fn lemma_parts(lines: Seq<LineView>)
    ensures
        assembled(parts_of(lines)) == lines,
        comments_only(parts_of(lines)),
        entry_rules(parts_of(lines).entries) == rules_of_lines(lines),
        parts_of(lines).entries.len() == 0 ==> parts_of(lines).trailing.len() == 0,
    decreases lines.len(),
{
    let parts = parts_of(lines);
    if lines.len() > 0 {
        let front = lines.drop_last();
        let p = parts_of(front);
        let last = lines.last();
        lemma_parts(front);
        assert(lines == front.push(last));
        match last {
            LineView::Comment(_) => {
                if p.entries.len() == 0 {
                    assert(p.trailing == Seq::<LineView>::empty());
                    assert(assembled(parts) == assembled(p).push(last));
                } else {
                    assert(assembled(parts) == assembled(p).push(last));
                }
            },
            LineView::Rule(rule) => {
                let e = EntryView { leading_comments: p.trailing, rule };
                assert(parts.entries.drop_last() == p.entries);
                assert(entry_lines(parts.entries) == entry_lines(p.entries) + p.trailing.push(last));
                assert(assembled(parts) == assembled(p).push(last));
                assert(entry_rules(parts.entries) == entry_rules(p.entries).push(rule));
            },
        }
    } else {
        assert(assembled(parts) == lines);
        assert(entry_rules(parts.entries) == rules_of_lines(lines));
    }
}

/// The rules of `a + b` are those of `a` and then those of `b`.
pub proof fn lemma_rules_concat(a: Seq<LineView>, b: Seq<LineView>)
    ensures
        rules_of_lines(a + b) == rules_of_lines(a) + rules_of_lines(b),
    decreases b.len(),
{
    if b.len() == 0 {
        assert(a + b == a);
        assert(rules_of_lines(a) + rules_of_lines(b) == rules_of_lines(a));
    } else {
        lemma_rules_concat(a, b.drop_last());
        assert((a + b).drop_last() == a + b.drop_last());
        assert(rules_of_lines(a + b) == rules_of_lines(a) + rules_of_lines(b));
    }
}

/// The rules of a file are those of its lines, group by group and in order, and no others.
pub proof fn lemma_rules_of(
    rule: RuleView,
    comment: Seq<char>,
    group: Seq<LineView>,
    a: Seq<Seq<LineView>>,
    b: Seq<Seq<LineView>>,
)
    ensures
        rules_of_lines(seq![LineView::Rule(rule)]) == seq![rule],
        rules_of_lines(seq![LineView::Comment(comment)]) == Seq::<RuleView>::empty(),
        rules_of_lines(Seq::empty()) == Seq::<RuleView>::empty(),
        rules_of(seq![group]) == rules_of_lines(group),
        rules_of(Seq::empty()) == Seq::<RuleView>::empty(),
        rules_of(a + b) == rules_of(a) + rules_of(b),
    decreases b.len(),
{
    let none: Seq<LineView> = seq![];
    let x = seq![LineView::Rule(rule)];
    let y = seq![LineView::Comment(comment)];
    assert(x.drop_last() == none);
    assert(y.drop_last() == none);
    assert(rules_of_lines(none) == Seq::<RuleView>::empty());
    assert(rules_of_lines(x) == seq![rule]);
    let one = seq![group];
    assert(one.drop_last() == Seq::<Seq<LineView>>::empty());
    assert(rules_of(one.drop_last()) == Seq::<RuleView>::empty());
    assert(rules_of(one) == rules_of_lines(group));
    if b.len() == 0 {
        assert(a + b == a);
        assert(rules_of(a) + rules_of(b) == rules_of(a));
    } else {
        lemma_rules_of(rule, comment, group, a, b.drop_last());
        assert((a + b).drop_last() == a + b.drop_last());
        assert(rules_of(a + b) == rules_of(a) + rules_of(b));
    }
}

proof fn lemma_no_rules(lines: Seq<LineView>)
    requires
        all_comments(lines),
    ensures
        rules_of_lines(lines) == Seq::<RuleView>::empty(),
    decreases lines.len(),
{
    if lines.len() > 0 {
        lemma_no_rules(lines.drop_last());
        assert(lines[lines.len() - 1] is Comment);
    }
}

proof fn lemma_entry_rules(entries: Seq<EntryView>)
    requires
        forall|i: int| 0 <= i < entries.len() ==> all_comments((#[trigger] entries[i]).leading_comments),
    ensures
        rules_of_lines(entry_lines(entries)) == entry_rules(entries),
    decreases entries.len(),
{
    if entries.len() == 0 {
        assert(entry_rules(entries) == rules_of_lines(entry_lines(entries)));
    } else {
        let front = entries.drop_last();
        let e = entries.last();
        lemma_entry_rules(front);
        assert(all_comments(entries[entries.len() - 1].leading_comments));
        lemma_no_rules(e.leading_comments);
        let block = e.leading_comments.push(LineView::Rule(e.rule));
        assert(block.drop_last() == e.leading_comments);
        assert(rules_of_lines(block) == seq![e.rule]);
        lemma_rules_concat(entry_lines(front), block);
        assert(entry_rules(entries) == entry_rules(front) + seq![e.rule]);
    }
}

proof fn lemma_assembled_rules(parts: PartsView)
    requires
        comments_only(parts),
    ensures
        rules_of_lines(assembled(parts)) == entry_rules(parts.entries),
{
    let body = entry_lines(parts.entries);
    lemma_rules_concat(parts.header + body, parts.trailing);
    lemma_rules_concat(parts.header, body);
    lemma_no_rules(parts.header);
    lemma_no_rules(parts.trailing);
    lemma_entry_rules(parts.entries);
    assert(rules_of_lines(assembled(parts)) == entry_rules(parts.entries));
}

/// Sorting a group puts its rules into the sorted order.
pub proof fn lemma_group_rules(before: Seq<LineView>, after: Seq<LineView>) -> (order: Seq<int>)
    requires
        sorted_group(before, after),
    ensures
        smallest_order(rules_of_lines(before), order),
        group_in_order(before, after, order),
        rules_of_lines(after) == rules_in_order(rules_of_lines(before), order),
{
    let p = parts_of(before);
    let order = choose|order: Seq<int>|
        smallest_order(entry_rules(p.entries), order) && #[trigger] group_in_order(before, after, order);
    lemma_parts(before);
    let q = PartsView { entries: reordered(p.entries, order), ..p };
    assert(comments_only(q)) by {
        assert forall|i: int| 0 <= i < q.entries.len()
            implies all_comments((#[trigger] q.entries[i]).leading_comments) by {
            assert(0 <= order[i] < p.entries.len());
            assert(q.entries[i] == p.entries[order[i]]);
        }
    }
    lemma_assembled_rules(q);
    assert(entry_rules(q.entries) == rules_in_order(entry_rules(p.entries), order)) by {
        assert forall|k: int| 0 <= k < order.len()
            implies entry_rules(q.entries)[k] == rules_in_order(entry_rules(p.entries), order)[k] by {
            assert(0 <= order[k] < p.entries.len());
        }
    }
    order
}

/// The sorted group is determined by the group.
pub proof fn lemma_sorted_group_unique(before: Seq<LineView>, a: Seq<LineView>, b: Seq<LineView>)
    requires
        sorted_group(before, a),
        sorted_group(before, b),
    ensures
        a == b,
{
    let p = lemma_group_rules(before, a);
    let q = lemma_group_rules(before, b);
    lemma_order_unique(rules_of_lines(before), p, q);
}

/// Sorting a sorted group changes nothing.
pub proof fn lemma_sort_group_idempotent(before: Seq<LineView>, after: Seq<LineView>)
    requires
        sorted_group(before, after),
    ensures
        sorted_group(after, after),
{
    let order = lemma_group_rules(before, after);
    lemma_sorted_is_smallest(rules_of_lines(before), order);
    lemma_parts(after);
    let p = parts_of(after);
    let id = identity(p.entries.len());
    assert(p.entries.len() == entry_rules(p.entries).len());
    assert(rules_of_lines(after).len() == rules_of_lines(before).len());
    assert(reordered(p.entries, id) == p.entries);
    assert(group_in_order(after, after, id));
}

/// The sorted file is determined by the file.
pub proof fn lemma_sorted_file_unique(before: Seq<Seq<LineView>>, a: Seq<Seq<LineView>>, b: Seq<Seq<LineView>>)
    requires
        sorted_file(before, a),
        sorted_file(before, b),
    ensures
        a == b,
{
    assert forall|i: int| 0 <= i < a.len() implies a[i] == b[i] by {
        assert(sorted_group(before[i], a[i]));
        assert(sorted_group(before[i], b[i]));
        lemma_sorted_group_unique(before[i], a[i], b[i]);
    }
    assert(a == b);
}

/// Sorting is idempotent: sorting a sorted file gives that file again.
pub proof fn lemma_sort_idempotent(before: Seq<Seq<LineView>>, after: Seq<Seq<LineView>>, again: Seq<Seq<LineView>>)
    requires
        sorted_file(before, after),
        sorted_file(after, again),
    ensures
        again == after,
{
    assert(sorted_file(after, after)) by {
        assert forall|i: int| 0 <= i < after.len() implies #[trigger] sorted_group(after[i], after[i]) by {
            assert(sorted_group(before[i], after[i]));
            lemma_sort_group_idempotent(before[i], after[i]);
        }
    }
    lemma_sorted_file_unique(after, again, after);
}

// ---------------------------------------------------------------------------
// No line is lost
// ---------------------------------------------------------------------------

spec fn block(e: EntryView) -> Seq<LineView> {
    e.leading_comments.push(LineView::Rule(e.rule))
}

proof fn lemma_entry_lines_concat(a: Seq<EntryView>, b: Seq<EntryView>)
    ensures
        entry_lines(a + b) == entry_lines(a) + entry_lines(b),
    decreases b.len(),
{
    if b.len() == 0 {
        assert(a + b == a);
        assert(entry_lines(a) + entry_lines(b) == entry_lines(a));
    } else {
        lemma_entry_lines_concat(a, b.drop_last());
        assert((a + b).drop_last() == a + b.drop_last());
        assert(entry_lines(a + b) == entry_lines(a) + entry_lines(b));
    }
}

proof fn lemma_remove_entry(entries: Seq<EntryView>, x: int)
    requires
        0 <= x < entries.len(),
    ensures
        entry_lines(entries).to_multiset() == entry_lines(entries.remove(x)).to_multiset().add(
            block(entries[x]).to_multiset(),
        ),
{
    let a = entries.take(x);
    let one = seq![entries[x]];
    let b = entries.skip(x + 1);
    assert(entries == a + one + b);
    assert(entries.remove(x) == a + b);
    lemma_entry_lines_concat(a + one, b);
    lemma_entry_lines_concat(a, one);
    lemma_entry_lines_concat(a, b);
    assert(one.drop_last() == Seq::<EntryView>::empty());
    assert(entry_lines(one.drop_last()) == Seq::<LineView>::empty());
    assert(entry_lines(one) == block(entries[x]));
    let la = entry_lines(a);
    let lb = entry_lines(b);
    let lx = block(entries[x]);
    vstd::seq_lib::lemma_multiset_commutative(la + lx, lb);
    vstd::seq_lib::lemma_multiset_commutative(la, lx);
    vstd::seq_lib::lemma_multiset_commutative(la, lb);
    assert(entry_lines(entries).to_multiset() =~= entry_lines(entries.remove(x)).to_multiset().add(
        lx.to_multiset(),
    ));
}

proof fn lemma_reordered_lines(entries: Seq<EntryView>, order: Seq<int>)
    requires
        permutation(entries.len(), order),
    ensures
        entry_lines(reordered(entries, order)).to_multiset() == entry_lines(entries).to_multiset(),
    decreases entries.len(),
{
    let n = entries.len() as int;
    let moved = reordered(entries, order);
    if n == 0 {
        assert(moved == entries);
    } else {
        let x = order.last();
        assert(0 <= order[n - 1] < n);
        let fewer = entries.remove(x);
        let rest = Seq::new((n - 1) as nat, |k: int| if order[k] > x { order[k] - 1 } else { order[k] });
        assert forall|k: int| 0 <= k < n - 1
            implies 0 <= #[trigger] rest[k] < n - 1 && fewer[rest[k]] == entries[order[k]] by {
            assert(0 <= order[k] < n);
            assert(order[k] != order[n - 1]);
        }
        assert(rest.no_duplicates()) by {
            assert forall|a: int, b: int| 0 <= a < b < rest.len() implies rest[a] != rest[b] by {
                assert(order[a] != order[b]);
                assert(order[a] != order[n - 1]);
                assert(order[b] != order[n - 1]);
            }
        }
        lemma_reordered_lines(fewer, rest);
        assert(moved.drop_last() == reordered(fewer, rest));
        assert(moved.last() == entries[x]);
        lemma_remove_entry(entries, x);
        vstd::seq_lib::lemma_multiset_commutative(entry_lines(moved.drop_last()), block(entries[x]));
        assert(entry_lines(moved) == entry_lines(moved.drop_last()) + block(entries[x]));
    }
}

/// Sorting moves the lines of a group, and neither drops, adds nor changes one.
pub proof fn lemma_sort_keeps_lines(before: Seq<LineView>, after: Seq<LineView>)
    requires
        sorted_group(before, after),
    ensures
        after.to_multiset() == before.to_multiset(),
{
    let order = lemma_group_rules(before, after);
    lemma_parts(before);
    let p = parts_of(before);
    assert(entry_rules(p.entries).len() == p.entries.len());
    lemma_reordered_lines(p.entries, order);
    let moved = entry_lines(reordered(p.entries, order));
    let stayed = entry_lines(p.entries);
    vstd::seq_lib::lemma_multiset_commutative(p.header + moved, p.trailing);
    vstd::seq_lib::lemma_multiset_commutative(p.header, moved);
    vstd::seq_lib::lemma_multiset_commutative(p.header + stayed, p.trailing);
    vstd::seq_lib::lemma_multiset_commutative(p.header, stayed);
}

/// Sorting keeps a file well-formed.
pub proof fn lemma_sort_keeps_well_formed(before: Seq<Seq<LineView>>, after: Seq<Seq<LineView>>)
    requires
        sorted_file(before, after),
        well_formed(before),
    ensures
        well_formed(after),
{
    assert forall|g: int| 0 <= g < after.len() implies well_formed_group(#[trigger] after[g]) by {
        assert(sorted_group(before[g], after[g]));
        assert(well_formed_group(before[g]));
        lemma_sort_keeps_lines(before[g], after[g]);
        before[g].to_multiset_ensures();
        after[g].to_multiset_ensures();
        assert forall|i: int| 0 <= i < after[g].len() implies well_formed_line(#[trigger] after[g][i]) by {
            assert(after[g].contains(after[g][i]));
            assert(after[g].to_multiset().count(after[g][i]) > 0);
            assert(before[g].to_multiset().count(after[g][i]) > 0);
            assert(before[g].contains(after[g][i]));
        }
    }
}

/// Sorting and formatting are idempotent together: a second pass over the text that
/// they have written changes nothing.
pub proof fn lemma_sort_format_idempotent(text: Seq<char>, sorted: Seq<Seq<LineView>>, again: Seq<Seq<LineView>>)
    requires
        sorted_file(file_of(text), sorted),
        sorted_file(file_of(format_of(sorted)), again),
    ensures
        format_of(again) == format_of(sorted),
{
    lemma_parsed_well_formed(text);
    lemma_sort_keeps_well_formed(file_of(text), sorted);
    lemma_format_reads_back(sorted);
    lemma_sort_idempotent(file_of(text), sorted, again);
}

// ---------------------------------------------------------------------------
// What the sorted rules look like
// ---------------------------------------------------------------------------

/// Which of two rules comes first where nothing else decides: unanchored patterns before
/// anchored ones, then by the patterns, character by character, then as they stood.
pub proof fn lemma_key_order(rules: Seq<RuleView>, i: int, j: int)
    ensures
        ({
            let a = rules[i].pattern;
            let b = rules[j].pattern;
            &&& unanchored(a) && !unanchored(b) ==> key_less(rules, i, j) && !key_less(rules, j, i)
            &&& unanchored(a) == unanchored(b) && a != b ==> (key_less(rules, i, j) <==> exists|k: int|
                smaller_at(a, b, k))
            &&& a == b ==> (key_less(rules, i, j) <==> i < j)
        }),
{
    lemma_lexicographic(rules[i].pattern, rules[j].pattern);
}

/// Two rules conflict exactly if one names an owner that the other does not, and their
/// patterns may overlap.
pub proof fn lemma_conflict(a: RuleView, b: RuleView)
    ensures
        conflict(a, b) <==> overlap(a.pattern, b.pattern) && exists|x: Seq<char>|
            #[trigger] a.owners.contains(x) != b.owners.contains(x),
{
    if a.owners.to_set() != b.owners.to_set() {
        if forall|x: Seq<char>| #[trigger] a.owners.contains(x) == b.owners.contains(x) {
            assert forall|x: Seq<char>| a.owners.to_set().contains(x) <==> b.owners.to_set().contains(x) by {
                assert(a.owners.contains(x) == b.owners.contains(x));
            }
            assert(a.owners.to_set() =~= b.owners.to_set());
        }
    } else {
        assert forall|x: Seq<char>| #[trigger] a.owners.contains(x) == b.owners.contains(x) by {
            assert(a.owners.to_set().contains(x) == b.owners.to_set().contains(x));
        }
    }
}

/// `order` lists each of the first `n` numbers once, and no rule comes before one that was
/// before it and conflicts with it.
pub open spec fn keeps_conflicts(rules: Seq<RuleView>, order: Seq<int>) -> bool {
    &&& order.len() == rules.len()
    &&& forall|k: int| 0 <= k < order.len() ==> 0 <= #[trigger] order[k] < rules.len()
    &&& forall|k: int, l: int| 0 <= k < l < order.len() ==> #[trigger] order[k] != #[trigger] order[l]
    &&& forall|k: int, l: int|
        0 <= k < l < order.len() && #[trigger] order[l] < #[trigger] order[k] ==> !conflict(
            rules[order[l]],
            rules[order[k]],
        )
}

proof fn lemma_valid_keeps_conflicts(rules: Seq<RuleView>, order: Seq<int>)
    ensures
        valid_order(rules, order) <==> keeps_conflicts(rules, order),
{
    if valid_order(rules, order) {
        assert forall|k: int, l: int|
            0 <= k < l < order.len() && #[trigger] order[l] < #[trigger] order[k] implies !conflict(
            rules[order[l]],
            rules[order[k]],
        ) by {
            if conflict(rules[order[l]], rules[order[k]]) {
                lemma_conflicts_stay(rules, order, l, k);
            }
        }
    }
    if keeps_conflicts(rules, order) {
        assert(permutation(rules.len(), order));
        assert forall|k: int| 0 <= k < order.len() implies ready(rules, order, k, #[trigger] order[k]) by {
            let j = order[k];
            assert forall|i: int| 0 <= i < j && #[trigger] conflict(rules[i], rules[j]) implies order.take(
                k,
            ).contains(i) by {
                lemma_permutation_has(rules.len(), order, i);
                let m = choose|m: int| 0 <= m < order.len() && order[m] == i;
                if m > k {
                    assert(order[m] < order[k]);
                }
                assert(m != k);
                assert(order.take(k)[m] == i);
            }
        }
    }
}

/// Sorting puts the rules of a group into an order that keeps conflicting rules as they
/// are, and no such order comes before it: where another one first differs, it takes a rule
/// that comes later by `lemma_key_order`.
pub proof fn lemma_sorted_group(before: Seq<LineView>, after: Seq<LineView>, other: Seq<int>) -> (order: Seq<int>)
    requires
        sorted_group(before, after),
    ensures
        keeps_conflicts(rules_of_lines(before), order),
        rules_of_lines(after).len() == order.len(),
        forall|k: int| 0 <= k < order.len()
            ==> #[trigger] rules_of_lines(after)[k] == rules_of_lines(before)[order[k]],
        keeps_conflicts(rules_of_lines(before), other) ==> order == other || exists|k: int|
            0 <= k < order.len() && order.take(k) == other.take(k) && #[trigger] key_less(
                rules_of_lines(before),
                order[k],
                other[k],
            ),
{
    let rules = rules_of_lines(before);
    let order = lemma_group_rules(before, after);
    lemma_valid_keeps_conflicts(rules, order);
    lemma_valid_keeps_conflicts(rules, other);
    if keeps_conflicts(rules, other) {
        lemma_smallest(rules, order, other);
    }
    order
}

/// Rules that do not conflict are sorted: the unanchored ones come first, and each of the
/// two kinds is in lexicographic order by pattern.
pub proof fn lemma_free_rules_sorted(before: Seq<LineView>, after: Seq<LineView>, k: int, l: int)
    requires
        sorted_group(before, after),
        forall|i: int, j: int|
            #![trigger rules_of_lines(before)[i], rules_of_lines(before)[j]]
            0 <= i < j < rules_of_lines(before).len() ==> !conflict(
                rules_of_lines(before)[i],
                rules_of_lines(before)[j],
            ),
        0 <= k < l < rules_of_lines(after).len(),
    ensures
        ({
            let a = rules_of_lines(after)[k].pattern;
            let b = rules_of_lines(after)[l].pattern;
            if unanchored(a) != unanchored(b) {
                unanchored(a)
            } else {
                a == b || exists|m: int| smaller_at(a, b, m)
            }
        }),
{
    let rules = rules_of_lines(before);
    let order = lemma_group_rules(before, after);
    assert(rules_of_lines(after)[k] == rules[order[k]]);
    assert(rules_of_lines(after)[l] == rules[order[l]]);
    assert(ready(rules, order, k, order[l])) by {
        assert forall|i: int| 0 <= i < order[l] && #[trigger] conflict(rules[i], rules[order[l]])
            implies order.take(
            k,
        ).contains(i) by {
            assert(!conflict(rules[i], rules[order[l]]));
        }
    }
    assert(key_less(rules, order[k], order[l]));
    lemma_key_order(rules, order[k], order[l]);
    lemma_key_order(rules, order[l], order[k]);
}

/// Sorting a file sorts its groups one by one, and neither adds nor drops one.
pub proof fn lemma_sorted_file(before: Seq<Seq<LineView>>, after: Seq<Seq<LineView>>)
    ensures
        sorted_file(before, after) <==> before.len() == after.len() && forall|g: int|
            0 <= g < before.len() ==> #[trigger] sorted_group(before[g], after[g]),
{
}

// ---------------------------------------------------------------------------
// Comments move with their rules
// ---------------------------------------------------------------------------

/// All lines are comments.
pub open spec fn only_comments(lines: Seq<LineView>) -> bool {
    forall|i: int| 0 <= i < lines.len() ==> #[trigger] lines[i] is Comment
}

proof fn lemma_parts_comments(x: Seq<LineView>, c: Seq<LineView>)
    requires
        only_comments(c),
    ensures
        parts_of(x).entries.len() == 0 ==> parts_of(x + c) == (PartsView {
            header: parts_of(x).header + c,
            ..parts_of(x)
        }),
        parts_of(x).entries.len() > 0 ==> parts_of(x + c) == (PartsView {
            trailing: parts_of(x).trailing + c,
            ..parts_of(x)
        }),
    decreases c.len(),
{
    let p = parts_of(x);
    if c.len() == 0 {
        assert(x + c == x);
        assert(p.header + c == p.header);
        assert(p.trailing + c == p.trailing);
    } else {
        let front = c.drop_last();
        assert forall|i: int| 0 <= i < front.len() implies #[trigger] front[i] is Comment by {
            assert(front[i] == c[i]);
        }
        lemma_parts_comments(x, front);
        assert((x + c).drop_last() == x + front);
        assert(c[c.len() - 1] is Comment);
        assert((x + c).last() == c.last());
        assert((p.header + front).push(c.last()) == p.header + c);
        assert((p.trailing + front).push(c.last()) == p.trailing + c);
    }
}

proof fn lemma_parts_grow(x: Seq<LineView>, y: Seq<LineView>)
    ensures
        parts_of(x).entries.len() <= parts_of(x + y).entries.len(),
        forall|m: int| 0 <= m < parts_of(x).entries.len()
            ==> #[trigger] parts_of(x + y).entries[m] == parts_of(x).entries[m],
        parts_of(x).entries.len() > 0 ==> parts_of(x + y).header == parts_of(x).header,
    decreases y.len(),
{
    if y.len() == 0 {
        assert(x + y == x);
    } else {
        lemma_parts_grow(x, y.drop_last());
        assert((x + y).drop_last() == x + y.drop_last());
        assert((x + y).last() == y.last());
    }
}

proof fn lemma_block_at(entries: Seq<EntryView>, k: int) -> (r: (Seq<LineView>, Seq<LineView>))
    requires
        0 <= k < entries.len(),
    ensures
        entry_lines(entries) == r.0 + block(entries[k]) + r.1,
    decreases entries.len(),
{
    let front = entries.drop_last();
    if k == entries.len() - 1 {
        let none: Seq<LineView> = seq![];
        assert(entry_lines(entries) == entry_lines(front) + block(entries[k]) + none);
        (entry_lines(front), none)
    } else {
        let (u, v) = lemma_block_at(front, k);
        let w = v + block(entries.last());
        assert(front[k] == entries[k]);
        assert(entry_lines(entries) == u + block(entries[k]) + w);
        (u, w)
    }
}

/// A rule and the comments between it and the rule before it make up an entry.
proof fn lemma_entry_made(
    start: Seq<LineView>,
    first: RuleView,
    comments: Seq<LineView>,
    next: RuleView,
    rest: Seq<LineView>,
) -> (m: int)
    requires
        only_comments(comments),
    ensures
        ({
            let entries = parts_of(
                start + seq![LineView::Rule(first)] + comments + seq![LineView::Rule(next)] + rest,
            ).entries;
            0 <= m < entries.len() && entries[m] == (EntryView { leading_comments: comments, rule: next })
        }),
{
    let x = start + seq![LineView::Rule(first)];
    let y = x + comments;
    let z = y + seq![LineView::Rule(next)];
    assert(x.drop_last() == start);
    lemma_parts_comments(x, comments);
    assert(parts_of(x).trailing + comments == comments);
    assert(z.drop_last() == y);
    let m = parts_of(y).entries.len() as int;
    assert(parts_of(z).entries[m] == (EntryView { leading_comments: comments, rule: next }));
    lemma_parts_grow(z, rest);
    m
}

proof fn lemma_regroup(
    header: Seq<LineView>,
    u: Seq<LineView>,
    entry: EntryView,
    v: Seq<LineView>,
    trailing: Seq<LineView>,
)
    ensures
        header + (u + block(entry) + v) + trailing == (header + u) + entry.leading_comments + seq![
            LineView::Rule(entry.rule),
        ] + (v + trailing),
{
    assert(header + (u + block(entry) + v) + trailing =~= (header + u) + entry.leading_comments + seq![
        LineView::Rule(entry.rule),
    ] + (v + trailing));
}

/// The comments between a rule and the next one move with the next one: wherever it goes,
/// they stand right before it.
pub proof fn lemma_comments_move(
    start: Seq<LineView>,
    first: RuleView,
    comments: Seq<LineView>,
    next: RuleView,
    rest: Seq<LineView>,
    after: Seq<LineView>,
) -> (r: (Seq<LineView>, Seq<LineView>))
    requires
        only_comments(comments),
        sorted_group(
            start + seq![LineView::Rule(first)] + comments + seq![LineView::Rule(next)] + rest,
            after,
        ),
    ensures
        after == r.0 + comments + seq![LineView::Rule(next)] + r.1,
{
    let before = start + seq![LineView::Rule(first)] + comments + seq![LineView::Rule(next)] + rest;
    let m = lemma_entry_made(start, first, comments, next, rest);
    lemma_moved(before, after, m)
}

/// Each entry of a group stands somewhere in the sorted group.
proof fn lemma_moved(before: Seq<LineView>, after: Seq<LineView>, m: int) -> (r: (Seq<LineView>, Seq<LineView>))
    requires
        sorted_group(before, after),
        0 <= m < parts_of(before).entries.len(),
    ensures
        after == r.0 + parts_of(before).entries[m].leading_comments + seq![
            LineView::Rule(parts_of(before).entries[m].rule),
        ] + r.1,
{
    let p = parts_of(before);
    let order = lemma_group_rules(before, after);
    lemma_parts(before);
    assert(entry_rules(p.entries).len() == p.entries.len());
    lemma_permutation_has(p.entries.len(), order, m);
    let k = choose|k: int| 0 <= k < order.len() && order[k] == m;
    let moved = reordered(p.entries, order);
    assert(moved[k] == p.entries[m]);
    let (u, v) = lemma_block_at(moved, k);
    lemma_regroup(p.header, u, p.entries[m], v, p.trailing);
    (p.header + u, v + p.trailing)
}

/// Comments before the first rule of a group stay at its start, and comments after the last
/// one stay at its end. A group without rules stays as it is.
pub proof fn lemma_outer_comments_stay(
    header: Seq<LineView>,
    first: RuleView,
    rest: Seq<LineView>,
    start: Seq<LineView>,
    last: RuleView,
    trailing: Seq<LineView>,
    after: Seq<LineView>,
) -> (r: (Seq<LineView>, Seq<LineView>))
    requires
        only_comments(header),
        only_comments(trailing),
    ensures
        sorted_group(header + seq![LineView::Rule(first)] + rest, after) ==> after == header + r.0,
        sorted_group(start + seq![LineView::Rule(last)] + trailing, after) ==> after == r.1 + trailing,
        sorted_group(header, after) ==> after == header,
{
    let none: Seq<LineView> = seq![];
    let mut tail = none;
    let mut front = none;
    lemma_parts_comments(none, header);
    assert(none + header == header);
    let x = header + seq![LineView::Rule(first)];
    assert(x.drop_last() == header);
    lemma_parts_grow(x, rest);
    if sorted_group(x + rest, after) {
        let p = parts_of(x + rest);
        let order = lemma_group_rules(x + rest, after);
        tail = entry_lines(reordered(p.entries, order)) + p.trailing;
        assert(p.header == header);
        assert(after == header + tail);
    }
    let y = start + seq![LineView::Rule(last)];
    assert(y.drop_last() == start);
    lemma_parts_comments(y, trailing);
    if sorted_group(y + trailing, after) {
        let p = parts_of(y + trailing);
        let order = lemma_group_rules(y + trailing, after);
        assert(parts_of(y).trailing + trailing == trailing);
        front = p.header + entry_lines(reordered(p.entries, order));
        assert(after == front + trailing);
    }
    if sorted_group(header, after) {
        let p = parts_of(header);
        let order = lemma_group_rules(header, after);
        lemma_parts(header);
        assert(entry_rules(p.entries).len() == 0);
        assert(reordered(p.entries, order) == p.entries);
    }
    (tail, front)
}

/// A group is put together from its header, each rule after its comments, and what is left.
pub proof fn lemma_put_together(parts: PartsView, entry: EntryView, a: Seq<EntryView>, b: Seq<EntryView>)
    ensures
        assembled(parts) == parts.header + entry_lines(parts.entries) + parts.trailing,
        entry_lines(Seq::empty()) == Seq::<LineView>::empty(),
        entry_lines(seq![entry]) == entry.leading_comments + seq![LineView::Rule(entry.rule)],
        entry_lines(a + b) == entry_lines(a) + entry_lines(b),
{
    let one = seq![entry];
    assert(one.drop_last() == Seq::<EntryView>::empty());
    assert(entry_lines(one.drop_last()) == Seq::<LineView>::empty());
    assert(entry_lines(one) == entry.leading_comments + seq![LineView::Rule(entry.rule)]);
    lemma_entry_lines_concat(a, b);
}

/// Rules and entries are seen as they are, one by one.
pub proof fn lemma_entry_views(rules: Seq<&Rule>, entries: Seq<Entry>, k: int, i: int)
    ensures
        rules_view(rules).len() == rules.len(),
        0 <= k < rules.len() ==> rules_view(rules)[k] == rules[k]@,
        entries_view(entries).len() == entries.len(),
        0 <= k < entries.len() ==> entries_view(entries)[k].rule == entries[k].rule@,
        0 <= k < entries.len() ==> entries_view(entries)[k].leading_comments.len()
            == entries[k].leading_comments@.len(),
        0 <= k < entries.len() && 0 <= i < entries[k].leading_comments@.len()
            ==> entries_view(entries)[k].leading_comments[i] == entries[k].leading_comments@[i]@,
{
}

} // verus!
