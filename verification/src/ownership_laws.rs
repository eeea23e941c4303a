//! What the matcher and the sorter promise together: sorting never changes who owns a
//! file.
use vstd::prelude::*;

verus! {

use crate::ast::{LineView, RuleView};
use crate::matcher::{
    all_matches, as_read, compiled_rules, facts_on, glob_fact, glob_language, has_basename,
    has_directory, has_language, has_position, last_match, literal, matched_paths, owners_by,
    portable, rules_of, rules_of_lines, CompiledRule,
};
use crate::order::{conflict, overlap, valid_order};
use crate::pattern::{
    bare_name, certain_prefix, ends_with, glob_of, has_wildcard, is_wildcard, plain, special,
    strip_leading, strip_trailing, unanchored, up_to_last_slash,
};
use crate::sort_laws::{lemma_conflicts_stay, lemma_group_rules, lemma_permutation_has, rules_in_order};
use crate::sorter::{sorted_file, sorted_group};
use crate::text::{lemma_span, span};

// ---------------------------------------------------------------------------
// Patterns that cannot match the same file
// ---------------------------------------------------------------------------

proof fn lemma_up_to_last_slash(s: Seq<char>)
    ensures
        up_to_last_slash(s).len() <= s.len(),
        up_to_last_slash(s) == s.take(up_to_last_slash(s).len() as int),
    decreases s.len(),
{
    if s.len() == 0 || s.last() == '/' {
        assert(s.take(s.len() as int) == s);
    } else {
        lemma_up_to_last_slash(s.drop_last());
        let n = up_to_last_slash(s).len() as int;
        assert(s.drop_last().take(n) == s.take(n));
    }
}

/// All paths that an anchored pattern matches are below its certain prefix, which has no
/// backslash.
proof fn lemma_anchored_prefix(p: Seq<char>, paths: Set<Seq<char>>, separates: bool, path: Seq<char>)
    requires
        !unanchored(p),
        facts_on(glob_of(p), paths, separates),
        paths.contains(path),
    ensures
        certain_prefix(p).is_prefix_of(as_read(path, separates)),
        portable(certain_prefix(p)),
{
    let g = glob_of(p);
    let q = strip_leading(p);
    let d = certain_prefix(p);
    let read = as_read(path, separates);
    assert(glob_fact(g, read, paths.contains(path)));
    let k = span(q, special());
    lemma_span(q, special());
    lemma_up_to_last_slash(q.take(k));
    let lit = span(g, special());
    lemma_span(g, special());
    assert forall|i: int| 0 <= i < d.len() implies d[i] == g[i] && !special()(#[trigger] g[i]) by {
        assert(d[i] == q.take(k)[i]);
        assert(g[i] == q[i]);
        assert(!special()(q[i]));
    }
    assert(d.len() <= lit) by {
        if lit < d.len() {
            assert(special()(g[lit]));
        }
    }
    assert(d == read.subrange(0, d.len() as int)) by {
        assert forall|i: int| 0 <= i < d.len() implies d[i] == read[i] by {
            assert(!special()(g[i]));
            assert(g.take(lit)[i] == read.subrange(0, lit)[i]);
        }
    }
    if d.contains('\\') {
        let i = choose|i: int| 0 <= i < d.len() && d[i] == '\\';
        assert(!special()(g[i]));
    }
}

/// What a path starts with, it starts with also where backslashes separate, unless there
/// is a backslash in it.
proof fn lemma_read_prefix(path: Seq<char>, separates: bool, d: Seq<char>)
    requires
        d.is_prefix_of(as_read(path, separates)),
        portable(d),
    ensures
        d.is_prefix_of(as_read(path, true)),
{
    let read = as_read(path, true);
    assert forall|i: int| 0 <= i < d.len() implies d[i] == #[trigger] read[i] by {
        assert(d[i] == as_read(path, separates).subrange(0, d.len() as int)[i]);
        assert(d.contains(d[i]));
    }
    assert(d == read.subrange(0, d.len() as int));
}

/// The last component of a path is the last component also where backslashes separate,
/// unless there is a backslash in it.
proof fn lemma_read_basename(path: Seq<char>, separates: bool, name: Seq<char>)
    requires
        has_basename(as_read(path, separates), name),
        portable(name),
    ensures
        has_basename(as_read(path, true), name),
{
    let from = as_read(path, separates);
    let read = as_read(path, true);
    let n = path.len() as int;
    if from == name {
        assert forall|i: int| 0 <= i < n implies read[i] == #[trigger] name[i] by {
            assert(name[i] == from[i]);
            assert(name.contains(name[i]));
        }
        assert(read == name);
    } else {
        let tail = seq!['/'] + name;
        let off = n - tail.len();
        assert(tail == from.subrange(off, n));
        assert forall|i: int| 0 <= i < tail.len() implies #[trigger] tail[i] == read[off + i] by {
            assert(tail[i] == from[off + i]);
            if i > 0 {
                assert(tail[i] == name[i - 1]);
                assert(name.contains(name[i - 1]));
            }
        }
        assert(tail == read.subrange(off, n));
    }
}

proof fn lemma_literal(p: Seq<char>)
    requires
        portable(p),
        !p.contains('{'),
        !has_wildcard(p),
    ensures
        literal(p),
{
    assert forall|i: int| 0 <= i < p.len() implies !is_wildcard(#[trigger] p[i]) by {}
}

/// A pattern without `/` and wildcards matches anywhere: it matches the files with that
/// name at any depth, and no others.
pub proof fn lemma_bare_name_matches(
    p: Seq<char>,
    paths: Set<Seq<char>>,
    separates: bool,
    path: Seq<char>,
)
    requires
        plain(p),
        unanchored(p),
        bare_name(p),
        facts_on(glob_of(p), paths, separates),
    ensures
        paths.contains(path) <==> has_basename(as_read(path, separates), p),
{
    let g = glob_of(p);
    assert(glob_fact(g, as_read(path, separates), paths.contains(path)));
    assert(strip_leading(p) == p);
    assert(strip_trailing(p) == p);
    assert(g == seq!['*', '*', '/'] + p);
    assert(g.take(3) == seq!['*', '*', '/']);
    assert(g.skip(3) == p);
    lemma_literal(p);
}

/// A pattern without wildcards that only ends with `/` matches anywhere: it matches all
/// that is inside a directory of that name at any depth, and nothing else.
pub proof fn lemma_bare_directory_matches(
    p: Seq<char>,
    paths: Set<Seq<char>>,
    separates: bool,
    path: Seq<char>,
)
    requires
        p.len() > 1,
        plain(p),
        unanchored(p),
        !has_wildcard(p),
        ends_with(p, '/'),
        facts_on(glob_of(p), paths, separates),
    ensures
        paths.contains(path) <==> has_directory(as_read(path, separates), p.drop_last()),
{
    let g = glob_of(p);
    let name = p.drop_last();
    let n = g.len() as int;
    assert(glob_fact(g, as_read(path, separates), paths.contains(path)));
    assert(strip_leading(p) == p);
    assert(g == seq!['*', '*', '/'] + p + seq!['*', '*']);
    assert(g.take(3) == seq!['*', '*', '/']);
    assert(g.skip(n - 3) == seq!['/', '*', '*']);
    assert(g.subrange(3, n - 3) == name);
    lemma_literal(p);
    assert(literal(name)) by {
        assert forall|i: int| 0 <= i < name.len()
            implies !is_wildcard(#[trigger] name[i]) && name[i] != '{' && name[i] != '\\' by {
            assert(name[i] == p[i]);
            assert(p.contains(p[i]));
        }
    }
}

/// An anchored pattern without wildcards that ends with `/` matches all that is inside
/// that directory, and nothing else.
pub proof fn lemma_rooted_directory_matches(
    p: Seq<char>,
    paths: Set<Seq<char>>,
    separates: bool,
    path: Seq<char>,
)
    requires
        plain(p),
        !unanchored(p),
        !has_wildcard(p),
        ends_with(strip_leading(p), '/'),
        facts_on(glob_of(p), paths, separates),
    ensures
        paths.contains(path) <==> strip_leading(p).is_prefix_of(as_read(path, separates)),
{
    let g = glob_of(p);
    let q = strip_leading(p);
    let n = g.len() as int;
    assert(glob_fact(g, as_read(path, separates), paths.contains(path)));
    assert(g == q + seq!['*', '*']);
    assert(g.skip(n - 3) == seq!['/', '*', '*']);
    assert(g.take(n - 2) == q);
    let dir = g.take(n - 3);
    let off: int = p.len() - q.len();
    lemma_literal(p);
    assert(literal(dir)) by {
        assert forall|i: int| 0 <= i < dir.len()
            implies !is_wildcard(#[trigger] dir[i]) && dir[i] != '{' && dir[i] != '\\' by {
            assert(dir[i] == p[i + off]);
            assert(p.contains(p[i + off]));
        }
    }
}

/// An anchored pattern without wildcards that does not end with `/` matches the one path
/// that it spells, relative to the root.
pub proof fn lemma_rooted_file_matches(
    p: Seq<char>,
    paths: Set<Seq<char>>,
    separates: bool,
    path: Seq<char>,
)
    requires
        plain(p),
        !unanchored(p),
        !has_wildcard(p),
        !ends_with(strip_leading(p), '/'),
        facts_on(glob_of(p), paths, separates),
    ensures
        paths.contains(path) <==> as_read(path, separates) == strip_leading(p),
{
    let g = glob_of(p);
    let q = strip_leading(p);
    assert(glob_fact(g, as_read(path, separates), paths.contains(path)));
    assert(g == q);
    let off: int = p.len() - q.len();
    lemma_literal(p);
    assert(literal(q)) by {
        assert forall|i: int| 0 <= i < q.len()
            implies !is_wildcard(#[trigger] q[i]) && q[i] != '{' && q[i] != '\\' by {
            assert(q[i] == p[i + off]);
            assert(p.contains(p[i + off]));
        }
    }
}

proof fn lemma_basename_unique(path: Seq<char>, a: Seq<char>, b: Seq<char>)
    requires
        has_basename(path, a),
        has_basename(path, b),
        !a.contains('/'),
        !b.contains('/'),
        a.len() <= b.len(),
    ensures
        a == b,
{
    let n = path.len() as int;
    let sa = seq!['/'] + a;
    let sb = seq!['/'] + b;
    if path == b {
        if path != a {
            assert(sa == path.subrange(n - sa.len(), n));
            assert(sa[0] == path[n - sa.len()]);
            assert(b.contains(b[n - sa.len()]));
        }
    } else {
        assert(sb == path.subrange(n - sb.len(), n));
        assert(path != a);
        assert(sa == path.subrange(n - sa.len(), n));
        if a.len() < b.len() {
            let i = b.len() - sa.len();
            assert(sb[i + 1] == path[n - sb.len() + i + 1]);
            assert(b[i] == sb[i + 1]);
            assert(sa[0] == path[n - sa.len()]);
            assert(b.contains(b[i]));
        } else {
            assert(sa == sb);
            assert(a == sa.skip(1));
            assert(b == sb.skip(1));
        }
    }
}

/// `may_overlap` has no false negatives: patterns that it tells apart match no file in
/// common, however the backslashes of the path are read.
pub proof fn lemma_no_overlap(
    a: Seq<char>,
    b: Seq<char>,
    a_paths: Set<Seq<char>>,
    b_paths: Set<Seq<char>>,
    path: Seq<char>,
)
    requires
        !overlap(a, b),
        exists|separates: bool| #[trigger] facts_on(glob_of(a), a_paths, separates),
        exists|separates: bool| #[trigger] facts_on(glob_of(b), b_paths, separates),
    ensures
        !(a_paths.contains(path) && b_paths.contains(path)),
{
    if a_paths.contains(path) && b_paths.contains(path) {
        let s = choose|separates: bool| #[trigger] facts_on(glob_of(a), a_paths, separates);
        let t = choose|separates: bool| #[trigger] facts_on(glob_of(b), b_paths, separates);
        let read = as_read(path, true);
        if unanchored(a) {
            lemma_bare_name_matches(a, a_paths, s, path);
            lemma_bare_name_matches(b, b_paths, t, path);
            lemma_read_basename(path, s, a);
            lemma_read_basename(path, t, b);
            assert(strip_trailing(a) == a);
            assert(strip_trailing(b) == b);
            if a.len() <= b.len() {
                lemma_basename_unique(read, a, b);
            } else {
                lemma_basename_unique(read, b, a);
            }
        } else {
            lemma_anchored_prefix(a, a_paths, s, path);
            lemma_anchored_prefix(b, b_paths, t, path);
            let p = certain_prefix(a);
            let q = certain_prefix(b);
            lemma_read_prefix(path, s, p);
            lemma_read_prefix(path, t, q);
            if p.len() <= q.len() {
                assert(p == q.subrange(0, p.len() as int));
            } else {
                assert(q == p.subrange(0, q.len() as int));
            }
        }
    }
}

/// Whether two patterns may overlap does not depend on which comes first.
pub proof fn lemma_overlap_symmetric(a: Seq<char>, b: Seq<char>)
    ensures
        overlap(a, b) == overlap(b, a),
{
}

/// A pattern overlaps itself.
pub proof fn lemma_overlap_reflexive(a: Seq<char>)
    ensures
        overlap(a, a),
{
    let p = certain_prefix(a);
    assert(p == p.subrange(0, p.len() as int));
}

/// Rules with the same owner set never conflict.
pub proof fn lemma_same_owners_free(a: RuleView, b: RuleView)
    requires
        a.owners.to_set() == b.owners.to_set(),
    ensures
        !conflict(a, b),
{
}

// ---------------------------------------------------------------------------
// The last rule that matches
// ---------------------------------------------------------------------------

/// The index of the last rule that satisfies `m`, or -1.
pub open spec fn last_rule(rules: Seq<RuleView>, m: spec_fn(RuleView) -> bool) -> int
    decreases rules.len(),
{
    if rules.len() == 0 {
        -1
    } else if m(rules.last()) {
        rules.len() - 1
    } else {
        last_rule(rules.drop_last(), m)
    }
}

proof fn lemma_last_rule(rules: Seq<RuleView>, m: spec_fn(RuleView) -> bool)
    ensures
        -1 <= last_rule(rules, m) < rules.len(),
        last_rule(rules, m) >= 0 ==> m(rules[last_rule(rules, m)]),
        forall|i: int| last_rule(rules, m) < i < rules.len() ==> !m(#[trigger] rules[i]),
    decreases rules.len(),
{
    if rules.len() > 0 && !m(rules.last()) {
        let front = rules.drop_last();
        lemma_last_rule(front, m);
        assert forall|i: int| last_rule(rules, m) < i < rules.len() implies !m(#[trigger] rules[i]) by {
            if i < front.len() {
                assert(front[i] == rules[i]);
            }
        }
    }
}

proof fn lemma_last_rule_is(rules: Seq<RuleView>, m: spec_fn(RuleView) -> bool, k: int)
    requires
        -1 <= k < rules.len(),
        k >= 0 ==> m(rules[k]),
        forall|i: int| k < i < rules.len() ==> !m(#[trigger] rules[i]),
    ensures
        last_rule(rules, m) == k,
{
    lemma_last_rule(rules, m);
    let l = last_rule(rules, m);
    if l > k {
        assert(m(rules[l]));
    }
}

/// The owners that the last rule with `m` gives, or none.
pub open spec fn last_owners(rules: Seq<RuleView>, m: spec_fn(RuleView) -> bool) -> Seq<Seq<char>> {
    let k = last_rule(rules, m);
    if 0 <= k < rules.len() {
        rules[k].owners
    } else {
        seq![]
    }
}

/// What `last_match` returns: a match, and the last one.
pub proof fn lemma_last_match(rules: Seq<CompiledRule>, path: Seq<char>)
    ensures
        -1 <= last_match(rules, path) < rules.len(),
        last_match(rules, path) >= 0 ==> rules[last_match(rules, path)].matches(path),
        forall|i: int| last_match(rules, path) < i < rules.len() ==> !(#[trigger] rules[i]).matches(path),
    decreases rules.len(),
{
    if rules.len() > 0 && !rules.last().matches(path) {
        let front = rules.drop_last();
        lemma_last_match(front, path);
        assert forall|i: int| last_match(rules, path) < i < rules.len()
            implies !(#[trigger] rules[i]).matches(path) by {
            if i < front.len() {
                assert(front[i] == rules[i]);
            }
        }
    }
}

/// The winner is the last of all matching rules, and a path without matching rules has
/// no owners.
pub proof fn lemma_winner_is_last(rules: Seq<CompiledRule>, path: Seq<char>)
    requires
        rules.len() <= usize::MAX,
    ensures
        all_matches(rules, path).len() == 0 <==> last_match(rules, path) == -1,
        all_matches(rules, path).len() > 0 ==> all_matches(rules, path).last() == last_match(rules, path),
    decreases rules.len(),
{
    if rules.len() > 0 {
        lemma_winner_is_last(rules.drop_last(), path);
    }
}

/// No pattern has a backslash.
pub open spec fn all_portable(rules: Seq<RuleView>) -> bool {
    forall|i: int| 0 <= i < rules.len() ==> portable((#[trigger] rules[i]).pattern)
}

/// The compiled form of the rule at `position` matches the path.
pub open spec fn position_matches(compiled: Seq<CompiledRule>, position: int, path: Seq<char>) -> bool {
    exists|k: int|
        0 <= k < compiled.len() && (#[trigger] compiled[k]).position == position && compiled[k].matches(path)
}

/// `reading` tells of each pattern whether it matches the path, and the compiled rules go
/// by it: a rule matches exactly if `reading` says so of its pattern.
pub open spec fn reads(
    reading: spec_fn(Seq<char>) -> bool,
    rules: Seq<RuleView>,
    compiled: Seq<CompiledRule>,
    path: Seq<char>,
) -> bool {
    forall|i: int| #![trigger position_matches(compiled, i, path)]
        0 <= i < rules.len() ==> (position_matches(compiled, i, path) <==> reading(rules[i].pattern))
}

/// What a rule says of the path by a reading of its pattern.
pub open spec fn rule_reading(reading: spec_fn(Seq<char>) -> bool) -> spec_fn(RuleView) -> bool {
    |r: RuleView| reading(r.pattern)
}

/// The reading on machines where a backslash separates, or on the others: the `globset`
/// crate lets the pattern match the path there.
pub open spec fn machine_reading(separates: bool, path: Seq<char>) -> spec_fn(Seq<char>) -> bool {
    |p: Seq<char>| glob_language(glob_of(p), true, separates) matches Some(paths) && paths.contains(path)
}

/// All rules were compiled on machines where a backslash separates, or all on the others.
pub open spec fn compiled_on(rules: Seq<RuleView>, compiled: Seq<CompiledRule>, separates: bool) -> bool {
    &&& forall|k: int| #![trigger compiled[k]]
        0 <= k < compiled.len() ==> has_language(
            Some(compiled[k].matcher),
            glob_language(glob_of(compiled[k].pattern@), true, separates),
        )
    &&& forall|i: int|
        0 <= i < rules.len() && !#[trigger] has_position(compiled, i) ==> glob_language(
            glob_of(rules[i].pattern),
            true,
            separates,
        ) is None
}

/// On one kind of machine every pattern is read the same.
pub proof fn lemma_machine_reading(
    rules: Seq<RuleView>,
    compiled: Seq<CompiledRule>,
    separates: bool,
    path: Seq<char>,
)
    requires
        compiled_rules(rules, compiled),
        compiled_on(rules, compiled, separates),
    ensures
        reads(machine_reading(separates, path), rules, compiled, path),
{
    let reading = machine_reading(separates, path);
    assert forall|i: int| #![trigger position_matches(compiled, i, path)]
        0 <= i < rules.len() implies (position_matches(compiled, i, path) <==> reading(rules[i].pattern)) by {
        let language = glob_language(glob_of(rules[i].pattern), true, separates);
        if position_matches(compiled, i, path) {
            let k = choose|k: int|
                0 <= k < compiled.len() && (#[trigger] compiled[k]).position == i
                    && compiled[k].matches(path);
            assert(compiled[k].compiled_from(rules[i], i));
            assert(matched_paths(compiled[k].matcher).contains(path));
        }
        if reading(rules[i].pattern) {
            assert(language is Some);
            assert(has_position(compiled, i));
            let k = choose|k: int| 0 <= k < compiled.len() && (#[trigger] compiled[k]).position == i;
            assert(compiled[k].compiled_from(rules[i], i));
            assert(compiled[k].matches(path));
        }
    }
}

/// Patterns and paths without backslashes are read the same everywhere.
pub proof fn lemma_portable_reading(rules: Seq<RuleView>, compiled: Seq<CompiledRule>, path: Seq<char>)
    requires
        compiled_rules(rules, compiled),
        all_portable(rules),
        portable(path),
    ensures
        reads(machine_reading(false, path), rules, compiled, path),
{
    let reading = machine_reading(false, path);
    assert forall|i: int| #![trigger position_matches(compiled, i, path)]
        0 <= i < rules.len() implies (position_matches(compiled, i, path) <==> reading(rules[i].pattern)) by {
        assert(portable(rules[i].pattern));
        let language = glob_language(glob_of(rules[i].pattern), true, false);
        if position_matches(compiled, i, path) {
            let k = choose|k: int|
                0 <= k < compiled.len() && (#[trigger] compiled[k]).position == i
                    && compiled[k].matches(path);
            assert(compiled[k].compiled_from(rules[i], i));
            assert(matched_paths(compiled[k].matcher).contains(path));
        }
        if reading(rules[i].pattern) {
            assert(language is Some);
            assert(has_position(compiled, i));
            let k = choose|k: int| 0 <= k < compiled.len() && (#[trigger] compiled[k]).position == i;
            assert(compiled[k].compiled_from(rules[i], i));
            assert(matched_paths(compiled[k].matcher).contains(path) <==> (language->0).contains(path));
        }
    }
}

/// The compiled rules answer as the rules of the file do: the last rule whose pattern
/// matches the path gives the owners.
pub proof fn lemma_owners_of_file(
    reading: spec_fn(Seq<char>) -> bool,
    rules: Seq<RuleView>,
    compiled: Seq<CompiledRule>,
    path: Seq<char>,
)
    requires
        compiled_rules(rules, compiled),
        reads(reading, rules, compiled, path),
    ensures
        owners_by(compiled, path) == last_owners(rules, rule_reading(reading)),
{
    let m = rule_reading(reading);
    let k = last_match(compiled, path);
    lemma_last_match(compiled, path);
    let i: int = if k >= 0 {
        compiled[k].position as int
    } else {
        -1
    };
    if k >= 0 {
        assert(compiled[k].compiled_from(rules[i], i));
        assert(position_matches(compiled, i, path));
        assert(m(rules[i]));
    }
    assert forall|j: int| i < j < rules.len() implies !m(#[trigger] rules[j]) by {
        if m(rules[j]) {
            assert(position_matches(compiled, j, path));
            let l = choose|l: int|
                0 <= l < compiled.len() && (#[trigger] compiled[l]).position == j
                    && compiled[l].matches(path);
            if l < k {
                assert(compiled[l].position < compiled[k].position);
            }
            assert(l > k);
        }
    }
    lemma_last_rule_is(rules, m, i);
}

// ---------------------------------------------------------------------------
// Sorting keeps the owners
// ---------------------------------------------------------------------------

/// Rules with different owner sets that both satisfy `m` conflict.
spec fn matches_conflict(rules: Seq<RuleView>, m: spec_fn(RuleView) -> bool) -> bool {
    forall|i: int, j: int|
        #![trigger rules[i], rules[j]]
        0 <= i < rules.len() && 0 <= j < rules.len() && m(rules[i]) && m(rules[j])
            && rules[i].owners.to_set() != rules[j].owners.to_set() ==> conflict(rules[i], rules[j])
}

proof fn lemma_order_keeps_owners(rules: Seq<RuleView>, order: Seq<int>, m: spec_fn(RuleView) -> bool)
    requires
        valid_order(rules, order),
        matches_conflict(rules, m),
    ensures
        last_rule(rules, m) >= 0 <==> last_rule(rules_in_order(rules, order), m) >= 0,
        last_owners(rules, m).to_set() == last_owners(rules_in_order(rules, order), m).to_set(),
{
    let moved = rules_in_order(rules, order);
    let k = last_rule(rules, m);
    let l = last_rule(moved, m);
    lemma_last_rule(rules, m);
    lemma_last_rule(moved, m);
    if k >= 0 {
        lemma_permutation_has(rules.len(), order, k);
        let p = choose|p: int| 0 <= p < order.len() && order[p] == k;
        assert(m(moved[p]));
        assert(p <= l);
        let i = order[l];
        assert(0 <= i < rules.len());
        assert(m(rules[i]));
        if rules[i].owners.to_set() != rules[k].owners.to_set() {
            assert(conflict(rules[i], rules[k]));
            assert(i < k);
            lemma_conflicts_stay(rules, order, l, p);
        }
    } else if l >= 0 {
        assert(0 <= order[l] < rules.len());
        assert(m(rules[order[l]]));
    }
}

proof fn lemma_last_concat(a: Seq<RuleView>, b: Seq<RuleView>, m: spec_fn(RuleView) -> bool)
    ensures
        last_rule(b, m) >= 0 ==> last_rule(a + b, m) >= 0 && last_owners(a + b, m) == last_owners(b, m),
        last_rule(b, m) < 0
            ==> last_rule(a + b, m) == last_rule(a, m) && last_owners(a + b, m) == last_owners(
            a,
            m,
        ),
{
    lemma_last_rule(a, m);
    lemma_last_rule(b, m);
    let k = last_rule(b, m);
    let all = a + b;
    let l = if k >= 0 {
        a.len() + k
    } else {
        last_rule(a, m)
    };
    assert forall|i: int| l < i < all.len() implies !m(#[trigger] all[i]) by {
        if i < a.len() {
            assert(all[i] == a[i]);
        } else {
            assert(all[i] == b[i - a.len()]);
        }
    }
    if l >= 0 {
        if k >= 0 {
            assert(all[l] == b[k]);
        } else {
            assert(all[l] == a[l]);
        }
    }
    lemma_last_rule_is(all, m, l);
}

proof fn lemma_file_keeps_owners(
    before: Seq<Seq<LineView>>,
    after: Seq<Seq<LineView>>,
    m: spec_fn(RuleView) -> bool,
)
    requires
        sorted_file(before, after),
        forall|g: int| 0 <= g < before.len() ==> matches_conflict(rules_of_lines(#[trigger] before[g]), m),
    ensures
        last_rule(rules_of(before), m) >= 0 <==> last_rule(rules_of(after), m) >= 0,
        last_owners(rules_of(before), m).to_set() == last_owners(rules_of(after), m).to_set(),
    decreases before.len(),
{
    if before.len() > 0 {
        let n = before.len() - 1;
        let b = before.drop_last();
        let a = after.drop_last();
        assert(sorted_file(b, a)) by {
            assert forall|i: int| 0 <= i < b.len() implies #[trigger] sorted_group(b[i], a[i]) by {
                assert(sorted_group(before[i], after[i]));
            }
        }
        assert forall|g: int| 0 <= g < b.len()
            implies matches_conflict(rules_of_lines(#[trigger] b[g]), m) by {
            assert(b[g] == before[g]);
        }
        lemma_file_keeps_owners(b, a, m);
        assert(sorted_group(before[n], after[n]));
        let order = lemma_group_rules(before[n], after[n]);
        assert(matches_conflict(rules_of_lines(before[n]), m));
        lemma_order_keeps_owners(rules_of_lines(before[n]), order, m);
        lemma_last_concat(rules_of(b), rules_of_lines(before[n]), m);
        lemma_last_concat(rules_of(a), rules_of_lines(after[n]), m);
    }
}

/// Where the rules of a group stand among those of the file.
proof fn lemma_group_rule_position(groups: Seq<Seq<LineView>>, g: int, i: int) -> (p: int)
    requires
        0 <= g < groups.len(),
        0 <= i < rules_of_lines(groups[g]).len(),
    ensures
        0 <= p < rules_of(groups).len(),
        rules_of(groups)[p] == rules_of_lines(groups[g])[i],
    decreases groups.len(),
{
    if g == groups.len() - 1 {
        rules_of(groups.drop_last()).len() + i
    } else {
        lemma_group_rule_position(groups.drop_last(), g, i)
    }
}

/// Rules of which both patterns match the path may overlap.
proof fn lemma_both_match(
    reading: spec_fn(Seq<char>) -> bool,
    rules: Seq<RuleView>,
    compiled: Seq<CompiledRule>,
    path: Seq<char>,
    i: int,
    j: int,
)
    requires
        compiled_rules(rules, compiled),
        reads(reading, rules, compiled, path),
        0 <= i < rules.len(),
        0 <= j < rules.len(),
        reading(rules[i].pattern),
        reading(rules[j].pattern),
    ensures
        overlap(rules[i].pattern, rules[j].pattern),
{
    assert(position_matches(compiled, i, path));
    assert(position_matches(compiled, j, path));
    let k = choose|k: int|
        0 <= k < compiled.len() && (#[trigger] compiled[k]).position == i && compiled[k].matches(path);
    let l = choose|l: int|
        0 <= l < compiled.len() && (#[trigger] compiled[l]).position == j && compiled[l].matches(path);
    assert(compiled[k].compiled_from(rules[i], i));
    assert(compiled[l].compiled_from(rules[j], j));
    if !overlap(rules[i].pattern, rules[j].pattern) {
        lemma_no_overlap(
            rules[i].pattern,
            rules[j].pattern,
            matched_paths(compiled[k].matcher),
            matched_paths(compiled[l].matcher),
            path,
        );
    }
}

/// Sorting never changes who owns a file, as long as a pattern is read the same before and
/// after: the rules give the same set of owners for every path, compiled before sorting
/// and after.
///
/// On one machine a pattern is always read the same: see
/// `lemma_sort_keeps_owners_on_one_machine`.
pub proof fn lemma_sort_keeps_owners_as_read(
    before: Seq<Seq<LineView>>,
    after: Seq<Seq<LineView>>,
    compiled_before: Seq<CompiledRule>,
    compiled_after: Seq<CompiledRule>,
    reading: spec_fn(Seq<char>) -> bool,
    path: Seq<char>,
)
    requires
        sorted_file(before, after),
        compiled_rules(rules_of(before), compiled_before),
        compiled_rules(rules_of(after), compiled_after),
        reads(reading, rules_of(before), compiled_before, path),
        reads(reading, rules_of(after), compiled_after, path),
    ensures
        owners_by(compiled_after, path).to_set() == owners_by(compiled_before, path).to_set(),
{
    let m = rule_reading(reading);
    let rules = rules_of(before);
    assert forall|g: int| 0 <= g < before.len()
        implies matches_conflict(rules_of_lines(#[trigger] before[g]), m) by {
        let rs = rules_of_lines(before[g]);
        assert forall|i: int, j: int|
            #![trigger rs[i], rs[j]]
            0 <= i < rs.len() && 0 <= j < rs.len() && m(rs[i]) && m(rs[j]) && rs[i].owners.to_set()
                != rs[j].owners.to_set() implies conflict(rs[i], rs[j]) by {
            let p = lemma_group_rule_position(before, g, i);
            let q = lemma_group_rule_position(before, g, j);
            lemma_both_match(reading, rules, compiled_before, path, p, q);
        }
    }
    lemma_file_keeps_owners(before, after, m);
    lemma_owners_of_file(reading, rules, compiled_before, path);
    lemma_owners_of_file(reading, rules_of(after), compiled_after, path);
}

/// Sorting never changes who owns a file: compiled before sorting and after on one machine,
/// the rules give the same set of owners for every path.
pub proof fn lemma_sort_keeps_owners_on_one_machine(
    before: Seq<Seq<LineView>>,
    after: Seq<Seq<LineView>>,
    compiled_before: Seq<CompiledRule>,
    compiled_after: Seq<CompiledRule>,
    separates: bool,
    path: Seq<char>,
)
    requires
        sorted_file(before, after),
        compiled_rules(rules_of(before), compiled_before),
        compiled_rules(rules_of(after), compiled_after),
        compiled_on(rules_of(before), compiled_before, separates),
        compiled_on(rules_of(after), compiled_after, separates),
    ensures
        owners_by(compiled_after, path).to_set() == owners_by(compiled_before, path).to_set(),
{
    lemma_machine_reading(rules_of(before), compiled_before, separates, path);
    lemma_machine_reading(rules_of(after), compiled_after, separates, path);
    lemma_sort_keeps_owners_as_read(
        before,
        after,
        compiled_before,
        compiled_after,
        machine_reading(separates, path),
        path,
    );
}

/// Sorting never changes who owns a file: compiled before sorting and after, on whatever
/// machines, the rules give the same set of owners for every path.
///
/// Left out are backslashes, which mean different things on different machines; for them
/// see `lemma_sort_keeps_owners_on_one_machine`.
pub proof fn lemma_sort_keeps_owners(
    before: Seq<Seq<LineView>>,
    after: Seq<Seq<LineView>>,
    compiled_before: Seq<CompiledRule>,
    compiled_after: Seq<CompiledRule>,
    path: Seq<char>,
)
    requires
        sorted_file(before, after),
        compiled_rules(rules_of(before), compiled_before),
        compiled_rules(rules_of(after), compiled_after),
        all_portable(rules_of(before)),
        portable(path),
    ensures
        owners_by(compiled_after, path).to_set() == owners_by(compiled_before, path).to_set(),
{
    lemma_sorted_portable(before, after);
    lemma_portable_reading(rules_of(before), compiled_before, path);
    lemma_portable_reading(rules_of(after), compiled_after, path);
    lemma_sort_keeps_owners_as_read(
        before,
        after,
        compiled_before,
        compiled_after,
        machine_reading(false, path),
        path,
    );
}

/// Sorting brings in no backslashes.
pub proof fn lemma_sorted_portable(before: Seq<Seq<LineView>>, after: Seq<Seq<LineView>>)
    requires
        sorted_file(before, after),
        all_portable(rules_of(before)),
    ensures
        all_portable(rules_of(after)),
    decreases before.len(),
{
    if before.len() > 0 {
        let n = before.len() - 1;
        let b = before.drop_last();
        let a = after.drop_last();
        let rb = rules_of(b);
        let rl = rules_of_lines(before[n]);
        assert(sorted_file(b, a)) by {
            assert forall|i: int| 0 <= i < b.len() implies #[trigger] sorted_group(b[i], a[i]) by {
                assert(sorted_group(before[i], after[i]));
            }
        }
        assert forall|i: int| 0 <= i < rb.len() implies portable((#[trigger] rb[i]).pattern) by {
            assert(rules_of(before)[i] == rb[i]);
        }
        lemma_sorted_portable(b, a);
        assert(sorted_group(before[n], after[n]));
        let order = lemma_group_rules(before[n], after[n]);
        let all = rules_of(after);
        let ra = rules_of(a);
        assert forall|i: int| 0 <= i < all.len() implies portable((#[trigger] all[i]).pattern) by {
            if i < ra.len() {
                assert(all[i] == ra[i]);
            } else {
                let k = order[i - ra.len()];
                assert(all[i] == rl[k]);
                assert(rules_of(before)[rb.len() + k] == rl[k]);
            }
        }
    }
}

} // verus!
