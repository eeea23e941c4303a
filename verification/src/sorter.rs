//! Sorting the rules of a file without changing who owns what.
use vstd::prelude::*;

use crate::ast::{File, Group, Line, Rule};
use crate::text::{chars_less, chars_of, has_prefix, same_string_set, same_text};

verus! {

use crate::ast::{lines_view, LineView, RuleView};
use crate::order::{
    blockers, certain_name, conflict, ints, key_less, overlap, ready, smallest_order,
    lemma_blockers_none, lemma_blockers_update,
};
use crate::pattern::{
    certain_prefix, directory_prefix, has_double_star, is_wildcard, prefix_before, special,
    strip_leading, strip_trailing, unanchored, up_to_last_slash, wildcard,
};

/// A block of leading comment lines followed by a rule, as they are read.
#[verifier::ext_equal]
pub struct EntryView {
    pub leading_comments: Seq<LineView>,
    pub rule: RuleView,
}

/// A group taken apart.
#[verifier::ext_equal]
pub struct PartsView {
    /// Comments at the very top of the group, before any rule.
    pub header: Seq<LineView>,
    /// The rules, each with the comments between the previous rule and this one.
    pub entries: Seq<EntryView>,
    /// Comments after the last rule.
    pub trailing: Seq<LineView>,
}

/// The parts of a group.
pub open spec fn parts_of(lines: Seq<LineView>) -> PartsView
    decreases lines.len(),
{
    if lines.len() == 0 {
        PartsView { header: seq![], entries: seq![], trailing: seq![] }
    } else {
        let p = parts_of(lines.drop_last());
        match lines.last() {
            LineView::Comment(_) => if p.entries.len() == 0 {
                PartsView { header: p.header.push(lines.last()), ..p }
            } else {
                PartsView { trailing: p.trailing.push(lines.last()), ..p }
            },
            LineView::Rule(rule) => PartsView {
                header: p.header,
                entries: p.entries.push(EntryView { leading_comments: p.trailing, rule }),
                trailing: seq![],
            },
        }
    }
}

/// The lines of the entries: each rule after its comments.
pub open spec fn entry_lines(entries: Seq<EntryView>) -> Seq<LineView>
    decreases entries.len(),
{
    if entries.len() == 0 {
        seq![]
    } else {
        let e = entries.last();
        entry_lines(entries.drop_last()) + e.leading_comments.push(LineView::Rule(e.rule))
    }
}

/// The lines of a group that has the given parts.
pub open spec fn assembled(parts: PartsView) -> Seq<LineView> {
    parts.header + entry_lines(parts.entries) + parts.trailing
}

/// The rules of the entries.
pub open spec fn entry_rules(entries: Seq<EntryView>) -> Seq<RuleView> {
    Seq::new(entries.len(), |i: int| entries[i].rule)
}

/// The entries in the given order.
pub open spec fn reordered(entries: Seq<EntryView>, order: Seq<int>) -> Seq<EntryView> {
    Seq::new(order.len(), |k: int| entries[order[k]])
}

/// `after` is the group `before` with its entries in the given order.
pub open spec fn group_in_order(before: Seq<LineView>, after: Seq<LineView>, order: Seq<int>) -> bool {
    let p = parts_of(before);
    after == assembled(PartsView { entries: reordered(p.entries, order), ..p })
}

/// `after` is the group `before`, sorted.
pub open spec fn sorted_group(before: Seq<LineView>, after: Seq<LineView>) -> bool {
    exists|order: Seq<int>|
        smallest_order(entry_rules(parts_of(before).entries), order) && #[trigger] group_in_order(
            before,
            after,
            order,
        )
}

/// `after` is the file `before` with each group sorted.
pub open spec fn sorted_file(before: Seq<Seq<LineView>>, after: Seq<Seq<LineView>>) -> bool {
    &&& before.len() == after.len()
    &&& forall|i: int| 0 <= i < before.len() ==> #[trigger] sorted_group(before[i], after[i])
}

/// Sort rules within each group lexicographically by pattern, preserving
/// semantics by keeping conflicting rules (different owners + overlapping
/// patterns) in their original relative order.
pub fn sort_groups(file: &mut File)
    ensures
        sorted_file(old(file)@, final(file)@),
{
    let ghost before = file@;
    let n: usize = file.groups.len();
    for i in 0..n
        invariant
            n == file.groups@.len(),
            before.len() == n,
            forall|k: int| 0 <= k < i ==> #[trigger] sorted_group(before[k], file@[k]),
            forall|k: int| i <= k < n ==> file.groups@[k]@ == #[trigger] before[k],
    {
        let ghost was = file@;
        sort_group(&mut file.groups[i]);
        proof {
            assert forall|k: int| 0 <= k < i + 1 implies #[trigger] sorted_group(before[k], file@[k]) by {
                if k < i {
                    assert(file@[k] == was[k]);
                } else {
                    assert(before[k] == was[k]);
                }
            }
        }
    }
}

/// An entry is a block of leading comment lines followed by a rule.
/// Comments move with their associated rule when sorting.
pub struct Entry {
    /// Comment lines that precede this rule.
    pub leading_comments: Vec<Line>,
    /// The rule line.
    pub rule: Rule,
}

impl View for Entry {
    type V = EntryView;

    open spec fn view(&self) -> EntryView {
        EntryView { leading_comments: lines_view(self.leading_comments@), rule: self.rule@ }
    }
}

/// The views of the entries `es`.
pub open spec fn entries_view(es: Seq<Entry>) -> Seq<EntryView> {
    Seq::new(es.len(), |i: int| es[i]@)
}

/// Sort a single group's rules, keeping comments attached to their rules.
pub fn sort_group(group: &mut Group)
    ensures
        sorted_group(old(group)@, final(group)@),
{
    let ghost before = group@;
    let mut lines: Vec<Line> = Vec::new();
    std::mem::swap(&mut lines, &mut group.lines);
    let (header, entries, trailing) = split_group(lines);
    let order: Vec<usize> = sorted_indices(&entries);
    let sorted_entries: Vec<Entry> = reorder(entries, &order);
    reconstruct_with_header(group, header, sorted_entries, trailing);
    assert(group_in_order(before, group@, ints(order@)));
}

/// Splits the lines of a group into the comments before any rule, the entries, and
/// the comments after the last rule.
fn split_group(lines: Vec<Line>) -> (r: (Vec<Line>, Vec<Entry>, Vec<Line>))
    ensures
        parts_of(lines_view(lines@)) == (PartsView {
            header: lines_view(r.0@),
            entries: entries_view(r.1@),
            trailing: lines_view(r.2@),
        }),
{
    let mut header_comments: Vec<Line> = Vec::new();
    let mut entries: Vec<Entry> = Vec::new();
    let mut pending_comments: Vec<Line> = Vec::new();
    let ghost ls = lines_view(lines@);
    assert(lines_view(header_comments@) == Seq::<LineView>::empty());
    assert(entries_view(entries@) == Seq::<EntryView>::empty());
    for line in it: lines
        invariant
            ls == lines_view(it.seq()),
            parts_of(ls.take(it.index() as int)) == (PartsView {
                header: lines_view(header_comments@),
                entries: entries_view(entries@),
                trailing: lines_view(pending_comments@),
            }),
    {
        let ghost header = lines_view(header_comments@);
        let ghost done = entries_view(entries@);
        let ghost pending = lines_view(pending_comments@);
        let ghost i = it.index() as int;
        assert(ls.take(i + 1).drop_last() == ls.take(i));
        assert(ls.take(i + 1).last() == line@);
        match line {
            Line::Comment(comment) => {
                if entries.len() == 0 {
                    header_comments.push(Line::Comment(comment));
                    assert(lines_view(header_comments@) == header.push(LineView::Comment(comment.text@)));
                } else {
                    pending_comments.push(Line::Comment(comment));
                    assert(lines_view(pending_comments@) == pending.push(LineView::Comment(comment.text@)));
                }
            },
            Line::Rule(rule) => {
                let entry: Entry = Entry { leading_comments: pending_comments, rule };
                entries.push(entry);
                pending_comments = Vec::new();
                assert(entries_view(entries@) == done.push(entry@));
                assert(lines_view(pending_comments@) == Seq::<LineView>::empty());
            },
        }
    }
    assert(ls.take(ls.len() as int) == ls);
    (header_comments, entries, pending_comments)
}

/// Moves the entries into the given order.
fn reorder(entries: Vec<Entry>, order: &Vec<usize>) -> (sorted: Vec<Entry>)
    requires
        crate::order::permutation(entries@.len(), ints(order@)),
    ensures
        entries_view(sorted@) == reordered(entries_view(entries@), ints(order@)),
{
    let ghost es = entries@;
    let ghost ord = ints(order@);
    // We need to move entries out since they're not Copy.
    let mut slots: Vec<Option<Entry>> = Vec::new();
    for entry in it: entries
        invariant
            it.seq() == es,
            slots@.len() == it.index(),
            forall|k: int| 0 <= k < slots@.len() ==> #[trigger] slots@[k] == Some(es[k]),
    {
        slots.push(Some(entry));
    }
    let mut sorted: Vec<Entry> = Vec::new();
    for k in 0..order.len()
        invariant
            ord == ints(order@),
            crate::order::permutation(es.len(), ord),
            slots@.len() == es.len(),
            sorted@.len() == k,
            forall|m: int| 0 <= m < k ==> #[trigger] sorted@[m] == es[ord[m]],
            forall|i: int| 0 <= i < es.len() && !ord.take(k as int).contains(i)
                ==> #[trigger] slots@[i] == Some(es[i]),
    {
        let idx: usize = order[k];
        proof {
            assert(ord[k as int] == idx);
            if ord.take(k as int).contains(idx as int) {
                let m = choose|m: int| 0 <= m < k && ord.take(k as int)[m] == idx;
                assert(ord[m] == ord[k as int]);
            }
            assert(slots@[idx as int] == Some(es[idx as int]));
        }
        if let Some(entry) = slots[idx].take() {
            sorted.push(entry);
        }
        proof {
            assert forall|i: int| 0 <= i < es.len() && !ord.take(k + 1).contains(i)
                implies #[trigger] slots@[i] == Some(es[i]) by {
                assert(ord.take(k + 1)[k as int] == idx);
                assert(i != idx);
                if ord.take(k as int).contains(i) {
                    let m = choose|m: int| 0 <= m < k && ord.take(k as int)[m] == i;
                    assert(ord.take(k + 1)[m] == i);
                }
            }
        }
    }
    assert(entries_view(sorted@) == reordered(entries_view(es), ord));
    sorted
}

/// Appends the parts of a group to it.
pub fn reconstruct_with_header(
    group: &mut Group,
    header_comments: Vec<Line>,
    entries: Vec<Entry>,
    trailing_comments: Vec<Line>,
)
    ensures
        final(group)@ == old(group)@ + assembled(
            (PartsView {
                header: lines_view(header_comments@),
                entries: entries_view(entries@),
                trailing: lines_view(trailing_comments@),
            }),
        ),
{
    let ghost start = group@;
    let ghost header = lines_view(header_comments@);
    let ghost es = entries_view(entries@);
    let ghost trailing = lines_view(trailing_comments@);
    let mut header_comments = header_comments;
    let mut trailing_comments = trailing_comments;
    group.lines.append(&mut header_comments);
    assert(group@ == start + header + entry_lines(es.take(0)));
    for entry in it: entries
        invariant
            es == entries_view(it.seq()),
            group@ == start + header + entry_lines(es.take(it.index() as int)),
            trailing == lines_view(trailing_comments@),
    {
        let ghost i = it.index() as int;
        let ghost before = group@;
        let ghost view = entry@;
        assert(es.take(i + 1).drop_last() == es.take(i));
        assert(es.take(i + 1).last() == view);
        let Entry { leading_comments, rule } = entry;
        let mut leading_comments = leading_comments;
        group.lines.append(&mut leading_comments);
        group.lines.push(Line::Rule(rule));
        assert(group@ == before + view.leading_comments.push(LineView::Rule(view.rule)));
        assert(group@ == start + header + entry_lines(es.take(i + 1)));
    }
    assert(es.take(es.len() as int) == es);
    let ghost before = group@;
    group.lines.append(&mut trailing_comments);
    assert(group@ == before + trailing);
    assert(group@ == start + (header + entry_lines(es) + trailing));
}

/// The rules that each rule must come before, by index, and how many rules each one
/// must come after.
struct ConflictGraph {
    adj: Vec<Vec<usize>>,
    in_degree: Vec<usize>,
}

/// The list `next` holds the rules after `i` that conflict with it, up to the rule `m`.
spec fn successors(rules: Seq<RuleView>, i: int, m: int, next: Seq<usize>) -> bool {
    &&& next.no_duplicates()
    &&& forall|j: usize| #[trigger]
        next.contains(j) <==> i < j < m && conflict(rules[i], rules[j as int])
}

/// `graph` is the conflict graph of the rules, some of which are done.
spec fn graph_of(rules: Seq<RuleView>, done: Seq<bool>, graph: ConflictGraph) -> bool {
    &&& graph.adj@.len() == rules.len()
    &&& forall|i: int| #![trigger graph.adj@[i]]
        0 <= i < rules.len() ==> successors(rules, i, rules.len() as int, graph.adj@[i]@)
    &&& degrees(rules, done, graph.in_degree@)
}

/// The entries of `in_degree` count the blockers of each rule.
spec fn degrees(rules: Seq<RuleView>, done: Seq<bool>, in_degree: Seq<usize>) -> bool {
    &&& in_degree.len() == rules.len()
    &&& forall|j: int| 0 <= j < rules.len() ==> #[trigger] in_degree[j] == blockers(rules, done, j, j)
}

spec fn none_done(n: nat) -> Seq<bool> {
    Seq::new(n, |i: int| false)
}

/// Whether two rules conflict: different owner sets and patterns that may overlap.
fn rules_conflict(a: &Rule, b: &Rule) -> (r: bool)
    ensures
        r == conflict(a@, b@),
{
    !same_string_set(&a.owners, &b.owners) && may_overlap(a.pattern.as_str(), b.pattern.as_str())
}

/// Build conflict graph: edge from i to j means i must come before j.
/// This happens when i was originally before j, they have different owners,
/// and their patterns may overlap.
fn conflict_graph(entries: &Vec<Entry>) -> (graph: ConflictGraph)
    ensures
        graph_of(entry_rules(entries_view(entries@)), none_done(entries@.len()), graph),
{
    let n: usize = entries.len();
    let ghost rules = entry_rules(entries_view(entries@));
    let ghost none = none_done(n as nat);
    let mut in_degree: Vec<usize> = Vec::new();
    let mut adj: Vec<Vec<usize>> = Vec::new();
    for j in 0..n
        invariant
            in_degree@.len() == j,
            forall|k: int| 0 <= k < j ==> in_degree@[k] == 0,
    {
        in_degree.push(0);
    }
    for i in 0..n
        invariant
            n == entries@.len(),
            rules == entry_rules(entries_view(entries@)),
            none == none_done(n as nat),
            in_degree@.len() == n,
            adj@.len() == i,
            forall|k: int| #![trigger adj@[k]] 0 <= k < i ==> successors(rules, k, n as int, adj@[k]@),
            forall|j: int| 0 <= j < n
                ==> #[trigger] in_degree@[j] == blockers(rules, none, j, if j < i { j } else { i as int }),
    {
        let mut next: Vec<usize> = Vec::new();
        for j in (i + 1)..n
            invariant
                i < n,
                n == entries@.len(),
                rules == entry_rules(entries_view(entries@)),
                none == none_done(n as nat),
                in_degree@.len() == n,
                successors(rules, i as int, j as int, next@),
                forall|k: int| 0 <= k < n
                    ==> #[trigger] in_degree@[k]
                    == blockers(rules, none, k, if k <= i { k } else if k < j { i + 1 } else { i as int }),
        {
            assert(rules[i as int] == entries@[i as int].rule@);
            assert(rules[j as int] == entries@[j as int].rule@);
            let ghost before = next@;
            if rules_conflict(&entries[i].rule, &entries[j].rule) {
                proof {
                    crate::order::lemma_blockers_bound(rules, none, j as int, i as int);
                }
                next.push(j);
                in_degree[j] = in_degree[j] + 1;
                proof {
                    assert(!before.contains(j));
                    assert forall|m: usize| #[trigger] next@.contains(m)
                        <==> i < m < j + 1 && conflict(rules[i as int], rules[m as int]) by {
                        if next@.contains(m) {
                            let k = choose|k: int| 0 <= k < next@.len() && next@[k] == m;
                            if k < before.len() {
                                assert(before[k] == m);
                                assert(before.contains(m));
                            }
                        }
                        if i < m < j + 1 && conflict(rules[i as int], rules[m as int]) {
                            if m == j {
                                assert(next@[before.len() as int] == m);
                            } else {
                                assert(before.contains(m));
                                let k = choose|k: int| 0 <= k < before.len() && before[k] == m;
                                assert(next@[k] == m);
                            }
                        }
                    }
                }
            } else {
                assert forall|m: usize| #[trigger] next@.contains(m)
                    <==> i < m < j + 1 && conflict(rules[i as int], rules[m as int]) by {
                    assert(before.contains(m) <==> i < m < j && conflict(rules[i as int], rules[m as int]));
                }
            }
        }
        adj.push(next);
    }
    ConflictGraph { adj, in_degree }
}

/// The sort key of a rule apart from its index. Unanchored patterns sort before
/// anchored ones, then lexicographically by pattern within each group.
struct SortKey {
    unanchored: bool,
    pattern: Vec<char>,
}

spec fn keys_of(rules: Seq<RuleView>, keys: Seq<SortKey>) -> bool {
    &&& keys.len() == rules.len()
    &&& forall|i: int| #![trigger keys[i]]
        0 <= i < keys.len() ==> keys[i].pattern@ == rules[i].pattern && keys[i].unanchored == unanchored(
            rules[i].pattern,
        )
}

fn sort_keys(entries: &Vec<Entry>) -> (keys: Vec<SortKey>)
    ensures
        keys_of(entry_rules(entries_view(entries@)), keys@),
{
    let mut keys: Vec<SortKey> = Vec::new();
    let ghost rules = entry_rules(entries_view(entries@));
    for i in 0..entries.len()
        invariant
            rules == entry_rules(entries_view(entries@)),
            keys@.len() == i,
            forall|k: int| #![trigger keys@[k]]
                0 <= k < i ==> keys@[k].pattern@ == rules[k].pattern && keys@[k].unanchored == unanchored(
                    rules[k].pattern,
                ),
    {
        let pattern: &str = entries[i].rule.pattern.as_str();
        assert(rules[i as int].pattern == pattern@);
        keys.push(SortKey { unanchored: is_unanchored(pattern), pattern: chars_of(pattern) });
    }
    keys
}

/// Whether the key of rule `i` is smaller than that of rule `j`.
fn key_is_less(Ghost(rules): Ghost<Seq<RuleView>>, keys: &Vec<SortKey>, i: usize, j: usize) -> (r: bool)
    requires
        keys_of(rules, keys@),
        i < keys@.len(),
        j < keys@.len(),
    ensures
        r == key_less(rules, i as int, j as int),
{
    if keys[i].unanchored != keys[j].unanchored {
        keys[i].unanchored
    } else if chars_less(keys[i].pattern.as_slice(), keys[j].pattern.as_slice()) {
        proof {
            crate::text::lemma_seq_less_total(rules[i as int].pattern, rules[j as int].pattern);
        }
        true
    } else if chars_less(keys[j].pattern.as_slice(), keys[i].pattern.as_slice()) {
        proof {
            crate::text::lemma_seq_less_total(rules[i as int].pattern, rules[j as int].pattern);
        }
        false
    } else {
        proof {
            crate::text::lemma_seq_less_total(rules[i as int].pattern, rules[j as int].pattern);
        }
        i < j
    }
}

/// The rule `i` is not done, and nothing that must come before it is left.
spec fn available(done: Seq<bool>, in_degree: Seq<usize>, i: int) -> bool {
    0 <= i < done.len() && !done[i] && in_degree[i] == 0
}

/// The available rule with the smallest key.
fn smallest_available(
    Ghost(rules): Ghost<Seq<RuleView>>,
    keys: &Vec<SortKey>,
    done: &Vec<bool>,
    in_degree: &Vec<usize>,
) -> (r: Option<usize>)
    requires
        keys_of(rules, keys@),
        done@.len() == rules.len(),
        in_degree@.len() == rules.len(),
    ensures
        r is None ==> forall|i: int| !#[trigger] available(done@, in_degree@, i),
        r matches Some(x) ==> available(done@, in_degree@, x as int) && forall|i: int|
            i != x && #[trigger] available(done@, in_degree@, i) ==> key_less(rules, x as int, i),
{
    let mut best: Option<usize> = None;
    for i in 0..done.len()
        invariant
            keys_of(rules, keys@),
            done@.len() == rules.len(),
            in_degree@.len() == rules.len(),
            best is None ==> forall|k: int| k < i ==> !#[trigger] available(done@, in_degree@, k),
            best matches Some(x) ==> x < i && available(done@, in_degree@, x as int) && forall|k: int|
                k < i && k != x && #[trigger] available(done@, in_degree@, k)
                    ==> key_less(rules, x as int, k),
    {
        if !done[i] && in_degree[i] == 0 {
            assert(available(done@, in_degree@, i as int));
            match best {
                None => {
                    best = Some(i);
                },
                Some(x) => {
                    if key_is_less(Ghost(rules), keys, i, x) {
                        proof {
                            assert forall|k: int| k < i + 1 && k != i
                                && #[trigger] available(done@, in_degree@, k)
                                implies key_less(rules, i as int, k) by {
                                if k != x {
                                    crate::order::lemma_key_trans(rules, i as int, x as int, k);
                                }
                            }
                        }
                        best = Some(i);
                    } else {
                        proof {
                            crate::order::lemma_key_total(rules, i as int, x as int);
                        }
                    }
                },
            }
        }
    }
    best
}

/// The indices of the entries in sorted order.
///
/// Kahn's algorithm, taking the smallest key at each step, gives the lexicographically
/// smallest valid ordering that respects conflict constraints.
fn sorted_indices(entries: &Vec<Entry>) -> (order: Vec<usize>)
    ensures
        smallest_order(entry_rules(entries_view(entries@)), ints(order@)),
{
    let n: usize = entries.len();
    let ghost rules = entry_rules(entries_view(entries@));
    let keys: Vec<SortKey> = sort_keys(entries);
    let ConflictGraph { adj, in_degree } = conflict_graph(entries);
    let mut in_degree = in_degree;
    let mut done: Vec<bool> = Vec::new();
    for i in 0..n
        invariant
            done@ == none_done(i as nat),
    {
        done.push(false);
        assert(done@ == none_done((i + 1) as nat));
    }
    let mut order: Vec<usize> = Vec::new();
    assert(partial_order(rules, done@, ints(order@)));
    while order.len() < n
        invariant
            n == rules.len(),
            order@.len() <= n,
            keys_of(rules, keys@),
            adj@.len() == n,
            forall|i: int| #![trigger adj@[i]] 0 <= i < n ==> successors(rules, i, n as int, adj@[i]@),
            degrees(rules, done@, in_degree@),
            partial_order(rules, done@, ints(order@)),
        ensures
            order@.len() == n,
        decreases n - order@.len(),
    {
        let ghost ord = ints(order@);
        match smallest_available(Ghost(rules), &keys, &done, &in_degree) {
            Some(x) => {
                let ghost was_done = done@;
                proof {
                    lemma_partial_push(rules, done@, in_degree@, ord, x as int);
                }
                order.push(x);
                done[x] = true;
                assert(ints(order@) == ord.push(x as int));
                release(Ghost(rules), Ghost(was_done), x, &adj[x], &mut in_degree);
            },
            None => {
                proof {
                    lemma_some_available(rules, done@, in_degree@, ord);
                }
                break;
            },
        }
    }
    order
}

/// Takes the rule `x` off the blockers of the rules that it blocks.
fn release(
    Ghost(rules): Ghost<Seq<RuleView>>,
    Ghost(done): Ghost<Seq<bool>>,
    x: usize,
    next: &Vec<usize>,
    in_degree: &mut Vec<usize>,
)
    requires
        x < rules.len() <= usize::MAX,
        done.len() == rules.len(),
        !done[x as int],
        successors(rules, x as int, rules.len() as int, next@),
        degrees(rules, done, old(in_degree)@),
    ensures
        degrees(rules, done.update(x as int, true), final(in_degree)@),
{
    let ghost after = done.update(x as int, true);
    proof {
        assert forall|j: int| 0 <= j < rules.len()
            implies #[trigger] in_degree@[j]
            == blockers(rules, after, j, j) + if next@.contains(j as usize) { 1nat } else { 0nat } by {
            lemma_blockers_update(rules, done, x as int, j, j);
        }
        assert forall|k: int| 0 <= k < next@.len() implies #[trigger] next@[k] < rules.len() by {
            assert(next@.contains(next@[k]));
        }
        assert(next@.skip(0) == next@);
    }
    for m in 0..next.len()
        invariant
            next@.no_duplicates(),
            rules.len() <= usize::MAX,
            forall|k: int| 0 <= k < next@.len() ==> #[trigger] next@[k] < rules.len(),
            in_degree@.len() == rules.len(),
            forall|j: int| 0 <= j < rules.len()
                ==> #[trigger] in_degree@[j]
                == blockers(rules, after, j, j) + if next@.skip(m as int).contains(j as usize) { 1nat } else { 0nat },
    {
        let j: usize = next[m];
        let ghost was = in_degree@;
        proof {
            assert(next@.skip(m as int)[0] == j);
            assert(in_degree@[j as int] >= 1);
        }
        in_degree[j] = in_degree[j] - 1;
        proof {
            assert forall|i: int| 0 <= i < rules.len()
                implies #[trigger] in_degree@[i]
                == blockers(rules, after, i, i) + if next@.skip(m + 1).contains(i as usize) { 1nat } else { 0nat } by {
                let here = next@.skip(m as int);
                let rest = next@.skip(m + 1);
                assert(was[i]
                    == blockers(rules, after, i, i) + if here.contains(i as usize) { 1nat } else { 0nat });
                if rest.contains(i as usize) {
                    let k = choose|k: int| 0 <= k < rest.len() && rest[k] == i as usize;
                    assert(here[k + 1] == i as usize);
                    assert(next@[m + 1 + k] == i as usize);
                    assert(i != j);
                } else if here.contains(i as usize) {
                    let k = choose|k: int| 0 <= k < here.len() && here[k] == i as usize;
                    if k > 0 {
                        assert(rest[k - 1] == i as usize);
                    }
                    assert(i == j);
                }
            }
        }
    }
    assert(next@.skip(next@.len() as int) == Seq::<usize>::empty());
}

/// `order` is how far the smallest order has come, and `done` tells which rules are in it.
spec fn partial_order(rules: Seq<RuleView>, done: Seq<bool>, order: Seq<int>) -> bool {
    &&& done.len() == rules.len()
    &&& forall|k: int| 0 <= k < order.len() ==> 0 <= #[trigger] order[k] < rules.len()
    &&& order.no_duplicates()
    &&& forall|i: int| 0 <= i < rules.len() ==> (#[trigger] done[i] <==> order.contains(i))
    &&& forall|k: int| 0 <= k < order.len() ==> ready(rules, order, k, #[trigger] order[k])
    &&& forall|k: int, l: int|
        #![trigger order[k], order[l]]
        0 <= k < l < order.len() && ready(rules, order, k, order[l]) ==> key_less(rules, order[k], order[l])
    &&& forall|k: int, j: int|
        #![trigger order[k], done[j]]
        0 <= k < order.len() && 0 <= j < rules.len() && !done[j] && ready(rules, order, k, j) ==> key_less(
            rules,
            order[k],
            j,
        )
}

proof fn lemma_ready_take(rules: Seq<RuleView>, order: Seq<int>, x: int, k: int, j: int)
    requires
        0 <= k <= order.len(),
    ensures
        ready(rules, order.push(x), k, j) == ready(rules, order, k, j),
{
    assert(order.push(x).take(k) == order.take(k));
}

proof fn lemma_ready_now(rules: Seq<RuleView>, done: Seq<bool>, in_degree: Seq<usize>, order: Seq<int>, j: int)
    requires
        degrees(rules, done, in_degree),
        partial_order(rules, done, order),
        0 <= j < rules.len(),
    ensures
        ready(rules, order, order.len() as int, j) <==> in_degree[j] == 0,
{
    lemma_blockers_none(rules, done, j, j);
    assert(order.take(order.len() as int) == order);
    assert(in_degree[j] == blockers(rules, done, j, j));
    if ready(rules, order, order.len() as int, j) {
        assert forall|i: int| 0 <= i < j && #[trigger] conflict(rules[i], rules[j]) implies done[i] by {}
    } else {
        let i = choose|i: int| 0 <= i < j && #[trigger] conflict(rules[i], rules[j])
            && !order.take(order.len() as int).contains(i);
        assert(!done[i]);
    }
}

proof fn lemma_partial_push(rules: Seq<RuleView>, done: Seq<bool>, in_degree: Seq<usize>, order: Seq<int>, x: int)
    requires
        degrees(rules, done, in_degree),
        partial_order(rules, done, order),
        available(done, in_degree, x),
        forall|i: int| i != x && #[trigger] available(done, in_degree, i) ==> key_less(rules, x, i),
    ensures
        partial_order(rules, done.update(x, true), order.push(x)),
{
    let n = order.len() as int;
    let o2 = order.push(x);
    let d2 = done.update(x, true);
    assert(!order.contains(x));
    assert forall|i: int| 0 <= i < rules.len() implies (#[trigger] d2[i] <==> o2.contains(i)) by {
        assert(done[i] <==> order.contains(i));
        if order.contains(i) {
            let k = choose|k: int| 0 <= k < n && order[k] == i;
            assert(o2[k] == i);
        }
        if i == x {
            assert(o2[n] == i);
        }
        if o2.contains(i) {
            let k = choose|k: int| 0 <= k < o2.len() && o2[k] == i;
            if k < n {
                assert(order[k] == i);
            }
        }
    }
    assert forall|k: int| 0 <= k < o2.len() implies ready(rules, o2, k, #[trigger] o2[k]) by {
        lemma_ready_take(rules, order, x, k, o2[k]);
        if k < n {
            assert(o2[k] == order[k]);
        } else {
            lemma_ready_now(rules, done, in_degree, order, x);
        }
    }
    assert forall|k: int, l: int|
        #![trigger o2[k], o2[l]]
        0 <= k < l < o2.len() && ready(rules, o2, k, o2[l]) implies key_less(rules, o2[k], o2[l]) by {
        lemma_ready_take(rules, order, x, k, o2[l]);
        assert(o2[k] == order[k]);
        if l < n {
            assert(o2[l] == order[l]);
        } else {
            assert(!done[x]);
        }
    }
    assert forall|k: int, j: int|
        #![trigger o2[k], d2[j]]
        0 <= k < o2.len() && 0 <= j < rules.len() && !d2[j] && ready(rules, o2, k, j)
            implies key_less(rules, o2[k], j) by {
        lemma_ready_take(rules, order, x, k, j);
        assert(!done[j]);
        if k < n {
            assert(o2[k] == order[k]);
        } else {
            lemma_ready_now(rules, done, in_degree, order, j);
            assert(available(done, in_degree, j));
        }
    }
}

/// As long as not all rules are done, one is available.
proof fn lemma_some_available(rules: Seq<RuleView>, done: Seq<bool>, in_degree: Seq<usize>, order: Seq<int>)
    requires
        degrees(rules, done, in_degree),
        partial_order(rules, done, order),
        order.len() < rules.len(),
    ensures
        exists|i: int| #[trigger] available(done, in_degree, i),
{
    crate::order::lemma_missing(rules.len(), order);
    let u = choose|u: int| 0 <= u < rules.len() && !order.contains(u);
    assert(!done[u]);
    lemma_least_undone(rules, done, in_degree, u);
}

proof fn lemma_least_undone(rules: Seq<RuleView>, done: Seq<bool>, in_degree: Seq<usize>, u: int)
    requires
        degrees(rules, done, in_degree),
        done.len() == rules.len(),
        0 <= u < rules.len(),
        !done[u],
    ensures
        exists|i: int| #[trigger] available(done, in_degree, i),
    decreases u,
{
    lemma_blockers_none(rules, done, u, u);
    if blockers(rules, done, u, u) == 0 {
        assert(in_degree[u] == 0);
        assert(available(done, in_degree, u));
    } else {
        let i = choose|i: int| 0 <= i < u && #[trigger] conflict(rules[i], rules[u]) && !done[i];
        lemma_least_undone(rules, done, in_degree, i);
    }
}

/// Conservatively determine if two CODEOWNERS patterns could match the same file.
///
/// Returns true if the patterns might overlap (erring on the side of caution).
/// False positives (claiming overlap when there is none) are safe: they just
/// prevent sorting. False negatives would be a bug.
pub fn may_overlap(a: &str, b: &str) -> (r: bool)
    ensures
        r == overlap(a@, b@),
{
    let ca: Vec<char> = chars_of(a);
    let cb: Vec<char> = chars_of(b);
    // If either uses **, it can match at any depth: assume overlap.
    if contains_double_star(ca.as_slice()) || contains_double_star(cb.as_slice()) {
        return true;
    }
    // If both are unanchored, check if they could match the same file.
    let a_unanchored: bool = is_unanchored(a);
    let b_unanchored: bool = is_unanchored(b);
    if a_unanchored && b_unanchored {
        // Two bare literal filenames (no wildcards, no trailing slash) can only
        // match the same file if they're literally identical.
        // e.g., `Makefile` and `.git-blame-ignore-revs` can never overlap.
        if is_certain_name(ca.as_slice()) && is_certain_name(cb.as_slice()) {
            return same_text(a, b);
        }
        // Otherwise (wildcards, alternatives, escapes or directories), be conservative.
        return true;
    }
    // If only one is unanchored, it could match anywhere: assume overlap.
    if a_unanchored || b_unanchored {
        return true;
    }
    // Both patterns are anchored. Check if their directory trees overlap
    // by comparing the prefixes in which every character stands for itself.
    let (a_lo, a_hi) = prefix_bounds(ca.as_slice(), true);
    let (b_lo, b_hi) = prefix_bounds(cb.as_slice(), true);
    let pa: &[char] = vstd::slice::slice_subrange(ca.as_slice(), a_lo, a_hi);
    let pb: &[char] = vstd::slice::slice_subrange(cb.as_slice(), b_lo, b_hi);
    has_prefix(pa, pb) || has_prefix(pb, pa)
}

fn contains_double_star(cs: &[char]) -> (r: bool)
    ensures
        r == has_double_star(cs@),
{
    let mut i: usize = 1;
    while i < cs.len()
        invariant
            1 <= i,
            forall|k: int| 0 <= k < i - 1 && k < cs@.len() - 1
                ==> !(#[trigger] cs@[k] == '*' && cs@[k + 1] == '*'),
        decreases cs@.len() - i,
    {
        if cs[i - 1] == '*' && cs[i] == '*' {
            assert(cs@[i - 1] == '*' && cs@[(i - 1) + 1] == '*');
            return true;
        }
        i = i + 1;
    }
    false
}

fn is_certain_name(cs: &[char]) -> (r: bool)
    ensures
        r == certain_name(cs@),
{
    for i in 0..cs.len()
        invariant
            forall|k: int| 0 <= k < i
                ==> !is_wildcard(#[trigger] cs@[k]) && cs@[k] != '{' && cs@[k] != '\\',
    {
        if cs[i] == '*' || cs[i] == '?' || cs[i] == '[' {
            assert(is_wildcard(cs@[i as int]));
            return false;
        }
        if cs[i] == '{' || cs[i] == '\\' {
            assert(cs@.contains(cs@[i as int]));
            return false;
        }
    }
    cs.len() > 0 && cs[cs.len() - 1] != '/'
}

/// A pattern is "unanchored" if it has no `/` in the beginning or middle.
/// Per gitignore rules, such patterns match files anywhere in the tree.
pub fn is_unanchored(pattern: &str) -> (r: bool)
    ensures
        r == unanchored(pattern@),
{
    let cs: Vec<char> = chars_of(pattern);
    let n: usize = cs.len();
    let ghost base = strip_trailing(cs@);
    let hi: usize = if n > 0 && cs[n - 1] == '/' {
        n - 1
    } else {
        n
    };
    if n > 0 && cs[0] == '/' {
        return false;
    }
    for i in 0..hi
        invariant
            hi <= cs@.len(),
            base == cs@.take(hi as int),
            cs@ == pattern@,
            base == strip_trailing(pattern@),
            forall|k: int| 0 <= k < i ==> base[k] != '/',
    {
        if cs[i] == '/' {
            assert(base[i as int] == '/');
            return false;
        }
    }
    true
}

/// Get the directory prefix of an anchored pattern, up to the first wildcard.
/// This is used to compare whether two patterns operate in the same directory tree.
///
/// Examples:
///   `/src/sentry/api/` -> `src/sentry/api/`
///   `/src/sentry/api/endpoints/relay/` -> `src/sentry/api/endpoints/relay/`
///   `/bin/mock*` -> `bin/`
///   `/src/sentry/snuba/metrics/query.py` -> `src/sentry/snuba/metrics/`
pub fn anchor_prefix(pattern: &str) -> (r: &str)
    ensures
        r@ == directory_prefix(pattern@),
{
    let cs: Vec<char> = chars_of(pattern);
    let (lo, hi) = prefix_bounds(cs.as_slice(), false);
    pattern.substring_char(lo, hi)
}

/// Where the directory part of a pattern starts and ends, up to the first wildcard, or also
/// up to the first of alternatives and escapes.
fn prefix_bounds(cs: &[char], certain: bool) -> (r: (usize, usize))
    ensures
        r.0 <= r.1 <= cs@.len(),
        cs@.subrange(r.0 as int, r.1 as int) == if certain {
            certain_prefix(cs@)
        } else {
            directory_prefix(cs@)
        },
{
    // Strip leading `/`.
    let lo: usize = if cs.len() > 0 && cs[0] == '/' {
        1
    } else {
        0
    };
    let ghost q = strip_leading(cs@);
    let ghost stop = if certain {
        special()
    } else {
        wildcard()
    };
    assert(q == cs@.skip(lo as int));
    // Find the first character that does not stand for itself.
    let mut hi: usize = lo;
    while hi < cs.len() && cs[hi] != '*' && cs[hi] != '?' && cs[hi] != '[' && !(certain && (cs[hi] == '{'
        || cs[hi] == '\\'))
        invariant
            lo <= hi <= cs@.len(),
            stop == if certain {
                special()
            } else {
                wildcard()
            },
            forall|k: int| lo <= k < hi ==> !stop(#[trigger] cs@[k]),
        decreases cs@.len() - hi,
    {
        hi = hi + 1;
    }
    proof {
        crate::text::lemma_span_is(q, stop, hi - lo);
        assert(q.take(hi - lo) == cs@.subrange(lo as int, hi as int));
    }
    // Return up to and including the last `/` before it (the directory part).
    while hi > lo && cs[hi - 1] != '/'
        invariant
            lo <= hi <= cs@.len(),
            up_to_last_slash(cs@.subrange(lo as int, hi as int)) == prefix_before(cs@, stop),
        decreases hi,
    {
        assert(cs@.subrange(lo as int, hi as int).drop_last() == cs@.subrange(lo as int, hi - 1));
        hi = hi - 1;
    }
    (lo, hi)
}

} // verus!
