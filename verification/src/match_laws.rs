//! What compiling the rules of a file keeps, and which patterns are small enough for it.
use vstd::prelude::*;

verus! {

use crate::ast::RuleView;
use crate::limits::{glob_fits, scan_of, Place};
use crate::matcher::{
    compiled_rules, glob_language, has_position, matched_paths, portable, rules_fit, CompiledRule,
};
use crate::pattern::glob_of;
use crate::text::strings_view;

/// A compiled rule has the pattern and the owners of a rule of the file, and matches what
/// the glob of its pattern matches. The compiled rules are in the order of the file.
pub proof fn lemma_compiled_rule(
    rules: Seq<RuleView>,
    compiled: Seq<CompiledRule>,
    k: int,
    l: int,
    separates: bool,
    path: Seq<char>,
)
    requires
        compiled_rules(rules, compiled),
        0 <= k < compiled.len(),
    ensures
        compiled[k].position < rules.len(),
        compiled[k].pattern@ == rules[compiled[k].position as int].pattern,
        strings_view(compiled[k].owners@) == rules[compiled[k].position as int].owners,
        k < l < compiled.len() ==> compiled[k].position < compiled[l].position,
        compiled[k].matches(path) <==> matched_paths(compiled[k].matcher).contains(path),
        portable(compiled[k].pattern@) && portable(path) ==> glob_language(
            glob_of(compiled[k].pattern@),
            true,
            separates,
        ) is Some && (compiled[k].matches(path)
            <==> (glob_language(glob_of(compiled[k].pattern@), true, separates)->0).contains(
            path,
        )),
{
    let i = compiled[k].position as int;
    assert(compiled[k].compiled_from(rules[i], i));
    if portable(rules[i].pattern) && portable(path) {
        let language = glob_language(glob_of(rules[i].pattern), true, separates);
        assert(language is Some);
        assert(matched_paths(compiled[k].matcher).contains(path) <==> (language->0).contains(path));
    }
}

/// A rule without backslashes is kept exactly if its glob is well-formed.
pub proof fn lemma_kept_rules(rules: Seq<RuleView>, compiled: Seq<CompiledRule>, i: int, separates: bool)
    requires
        compiled_rules(rules, compiled),
        0 <= i < rules.len(),
        !rules[i].pattern.contains('\\'),
    ensures
        (exists|k: int| 0 <= k < compiled.len() && (#[trigger] compiled[k]).position == i) <==> glob_language(
            glob_of(rules[i].pattern),
            true,
            separates,
        ) is Some,
{
    let language = glob_language(glob_of(rules[i].pattern), true, separates);
    if has_position(compiled, i) {
        let k = choose|k: int| 0 <= k < compiled.len() && (#[trigger] compiled[k]).position == i;
        assert(compiled[k].compiled_from(rules[i], i));
        assert(language is Some);
    } else {
        assert(language is None);
    }
}

/// The rules of a file are compiled exactly if all their globs are small enough.
pub proof fn lemma_rules_fit(rules: Seq<RuleView>)
    ensures
        rules_fit(rules) <==> forall|i: int| 0 <= i < rules.len()
            ==> glob_fits(glob_of((#[trigger] rules[i]).pattern)),
{
    if rules_fit(rules) {
        assert forall|i: int| 0 <= i < rules.len()
            implies glob_fits(glob_of((#[trigger] rules[i]).pattern)) by {
            assert(glob_fits(glob_of(rules[i].pattern)));
        }
    }
    if forall|i: int| 0 <= i < rules.len() ==> glob_fits(glob_of((#[trigger] rules[i]).pattern)) {
        assert forall|i: int| 0 <= i < rules.len()
            implies glob_fits(#[trigger] glob_of(rules[i].pattern)) by {
            assert(glob_fits(glob_of(rules[i].pattern)));
        }
    }
}

proof fn lemma_scan_bounds(glob: Seq<char>, escapes: bool)
    ensures
        scan_of(glob, escapes).cost <= 304 * glob.len(),
        scan_of(glob, escapes).depth <= scan_of(glob, escapes).deepest,
        scan_of(glob, escapes).deepest <= glob.to_multiset().count('{'),
    decreases glob.len(),
{
    if glob.len() > 0 {
        let front = glob.drop_last();
        lemma_scan_bounds(front, escapes);
        front.to_multiset_ensures();
        assert(glob == front.push(glob.last()));
        assert(glob.to_multiset() =~= front.to_multiset().insert(glob.last()));
        lemma_depth_bound(front, escapes);
    }
}

/// No more braces are open than there are.
proof fn lemma_depth_bound(glob: Seq<char>, escapes: bool)
    ensures
        scan_of(glob, escapes).depth <= glob.to_multiset().count('{'),
    decreases glob.len(),
{
    if glob.len() > 0 {
        let front = glob.drop_last();
        lemma_depth_bound(front, escapes);
        front.to_multiset_ensures();
        assert(glob == front.push(glob.last()));
        assert(glob.to_multiset() =~= front.to_multiset().insert(glob.last()));
    }
}

/// Every glob of up to 34000 characters with at most 81 opening braces is small enough.
pub proof fn lemma_small_globs_fit(glob: Seq<char>)
    requires
        glob.len() <= 34000,
        glob.to_multiset().count('{') <= 81,
    ensures
        glob_fits(glob),
{
    lemma_scan_bounds(glob, true);
    lemma_scan_bounds(glob, false);
}

/// The character is in ASCII and stands for itself in a glob.
pub open spec fn plain_ascii(c: char) -> bool {
    c as u32 <= 0x7f && !set!['*', '?', '[', '{', '}', '\\'].contains(c)
}

proof fn lemma_plain_cost(glob: Seq<char>, escapes: bool)
    requires
        forall|i: int| 0 <= i < glob.len() ==> plain_ascii(#[trigger] glob[i]),
    ensures
        scan_of(glob, escapes).cost == 32 * glob.len(),
        scan_of(glob, escapes).place == Place::Text,
        scan_of(glob, escapes).depth == 0,
        scan_of(glob, escapes).deepest == 0,
    decreases glob.len(),
{
    if glob.len() > 0 {
        let front = glob.drop_last();
        assert forall|i: int| 0 <= i < front.len() implies plain_ascii(#[trigger] front[i]) by {
            assert(front[i] == glob[i]);
        }
        lemma_plain_cost(front, escapes);
        let c = glob[glob.len() - 1];
        assert(plain_ascii(c));
        let all = set!['*', '?', '[', '{', '}', '\\'];
        assert(all.contains('*') && all.contains('?')
            && all.contains('[') && all.contains('{') && all.contains('}')
            && all.contains('\\'));
    }
}

/// A glob of plain characters is small enough exactly if it takes no more than 10 MiB at 32
/// bytes for each character and 192 for the whole.
pub proof fn lemma_plain_globs_fit(glob: Seq<char>)
    requires
        forall|i: int| 0 <= i < glob.len() ==> plain_ascii(#[trigger] glob[i]),
    ensures
        glob_fits(glob) <==> 32 * glob.len() + 192 <= 10 * 1024 * 1024,
{
    lemma_plain_cost(glob, true);
    lemma_plain_cost(glob, false);
    if glob.len() > 0 {
        assert(plain_ascii(glob[0]));
        assert(set!['*', '?', '[', '{', '}', '\\'].contains('*'));
    }
}

} // verus!
