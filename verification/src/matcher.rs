//! Matching paths against the rules of a CODEOWNERS file.
use vstd::prelude::*;

use crate::ast::{File, Line, Rule};
use crate::text::chars_of;

verus! {

use crate::ast::{LineView, RuleView};
use crate::limits::{scan_of, closed, glob_fits, lemma_nothing_open};
use crate::pattern::{ends_with, glob_of, is_wildcard, plain, special, strip_leading, unanchored};
use crate::text::{span, strings_view};

/// Free of backslashes, which are separators on some machines and escape the next
/// character of a glob on others.
pub open spec fn portable(s: Seq<char>) -> bool {
    !s.contains('\\')
}

/// Every character stands for itself.
pub open spec fn literal(s: Seq<char>) -> bool {
    plain(s) && forall|i: int| 0 <= i < s.len() ==> !is_wildcard(#[trigger] s[i])
}

/// The last component of `path` is `name`.
pub open spec fn has_basename(path: Seq<char>, name: Seq<char>) -> bool {
    path == name || (seq!['/'] + name).is_suffix_of(path)
}

/// Some directory above `path`, at any depth, is called `name`.
pub open spec fn has_directory(path: Seq<char>, name: Seq<char>) -> bool {
    exists|i: int|
        0 <= i <= path.len() && (i == 0 || path[i - 1] == '/') && #[trigger] name.push('/').is_prefix_of(
            path.skip(i),
        )
}

/// A path as a machine reads it: backslashes are slashes where they separate.
pub open spec fn as_read(path: Seq<char>, separates: bool) -> Seq<char> {
    if separates {
        Seq::new(
            path.len(),
            |i: int|
                if path[i] == '\\' {
                    '/'
                } else {
                    path[i]
                },
        )
    } else {
        path
    }
}

/// What is known of the set of paths that a glob matches, on machines where a backslash
/// separates or on the others.
pub open spec fn facts_on(glob: Seq<char>, paths: Set<Seq<char>>, separates: bool) -> bool {
    forall|path: Seq<char>| glob_fact(glob, as_read(path, separates), #[trigger] paths.contains(path))
}

/// What is known of whether a glob matches one path:
/// - a glob matches only paths that start with what it has before its first wildcard,
///   alternatives or backslash;
/// - a literal glob matches only the path that it spells;
/// - a literal followed by `/**` matches all that is inside that directory;
/// - `**/` followed by a literal name matches the paths with that last component;
/// - `**/`, a literal name and `/**` match all that is inside a directory of that name.
pub open spec fn glob_fact(glob: Seq<char>, path: Seq<char>, matched: bool) -> bool {
    let n = glob.len() as int;
    let any_depth = n > 3 && glob.take(3) == seq!['*', '*', '/'];
    let inside = n >= 3 && glob.skip(n - 3) == seq!['/', '*', '*'];
    &&& matched ==> glob.take(span(glob, special())).is_prefix_of(path)
    &&& literal(glob) ==> (matched <==> path == glob)
    &&& inside && literal(glob.take(n - 3)) ==> (matched <==> glob.take(n - 2).is_prefix_of(path))
    &&& any_depth && literal_name(glob.skip(3)) ==> (matched <==> has_basename(path, glob.skip(3)))
    &&& n > 6 && any_depth && inside && literal_name(glob.subrange(3, n - 3)) ==> (matched <==> has_directory(
        path,
        glob.subrange(3, n - 3),
    ))
}

/// A file name of which every character stands for itself.
pub open spec fn literal_name(s: Seq<char>) -> bool {
    s.len() > 0 && literal(s) && !s.contains('/')
}

/// The two sets hold the same portable paths.
pub open spec fn same_portable(a: Set<Seq<char>>, b: Set<Seq<char>>) -> bool {
    forall|path: Seq<char>| portable(path) ==> (#[trigger] a.contains(path) <==> b.contains(path))
}

/// A compiled glob: `globset::GlobMatcher`.
#[verifier::external_type_specification]
#[verifier::external_body]
pub struct ExGlobMatcher(globset::GlobMatcher);

/// The paths that a compiled glob holds to be matches.
pub uninterp spec fn matched_paths(matcher: globset::GlobMatcher) -> Set<Seq<char>>;

/// The paths that the `globset` crate lets a glob match, and `None` if the glob is
/// malformed. `separates` tells whether a backslash separates the components of a path, as
/// it does on some machines; on the others it escapes the next character of a glob.
pub uninterp spec fn glob_language(
    glob: Seq<char>,
    literal_separator: bool,
    separates: bool,
) -> Option<Set<Seq<char>>>;

/// `r` is what compiling a glob of that language gives.
pub open spec fn has_language(r: Option<globset::GlobMatcher>, language: Option<Set<Seq<char>>>) -> bool {
    &&& r is Some <==> language is Some
    &&& r matches Some(m) ==> matched_paths(m) == language->0
}

/// As far as portable paths go, `r` is what compiling a glob of that language gives.
pub open spec fn has_portable_language(
    r: Option<globset::GlobMatcher>,
    language: Option<Set<Seq<char>>>,
) -> bool {
    &&& r is Some <==> language is Some
    &&& r matches Some(m) ==> same_portable(matched_paths(m), language->0)
}

/// A glob without classes is well-formed if it leaves nothing open, and the facts hold of
/// what it matches.
pub open spec fn known_of(glob: Seq<char>, separates: bool, r: Option<globset::GlobMatcher>) -> bool {
    &&& !glob.contains('[') ==> (r is Some <==> closed(scan_of(glob, !separates)))
    &&& r matches Some(m) ==> facts_on(glob, matched_paths(m), separates)
}

/// Compiles a glob with `globset::GlobBuilder::build` and `globset::Glob::compile_matcher`.
///
/// Claimed of them: whether a glob is well-formed, and which paths it then matches,
/// depends on the glob, on the `literal_separator` option, and on whether a backslash
/// separates on the machine at hand, which is not said; without backslashes it does not
/// depend on the machine; a glob without classes is well-formed if it leaves nothing open;
/// and `facts_on` holds of the paths. A larger glob than `glob_fits` allows may panic.
#[verifier::external_body]
fn compile_glob(glob: &str, literal_separator: bool) -> (r: Option<globset::GlobMatcher>)
    requires
        glob_fits(glob@),
    ensures
        exists|separates: bool|
            has_language(r, #[trigger] glob_language(glob@, literal_separator, separates))
                && known_of(glob@, separates, r),
        portable(glob@) ==> forall|separates: bool|
            has_portable_language(r, #[trigger] glob_language(glob@, literal_separator, separates)),
{
    match globset::GlobBuilder::new(glob).literal_separator(literal_separator).build() {
        Ok(built) => Some(built.compile_matcher()),
        Err(_) => None,
    }
}

/// Asks `globset::GlobMatcher::is_match` about a path.
///
/// Claimed of it: the answer is whether the path is among `matched_paths`.
#[verifier::external_body]
fn glob_is_match(matcher: &globset::GlobMatcher, path: &str) -> (r: bool)
    ensures
        r == matched_paths(*matcher).contains(path@),
{
    matcher.is_match(path)
}

/// A compiled CODEOWNERS rule ready for matching.
pub struct CompiledRule {
    /// The file pattern as the rule spells it.
    pub pattern: String,
    /// Which of the file's rules this is, counted from 0.
    pub position: usize,
    pub owners: Vec<String>,
    pub matcher: globset::GlobMatcher,
}

impl CompiledRule {
    /// The rule matches the path.
    pub open spec fn matches(self, path: Seq<char>) -> bool {
        matched_paths(self.matcher).contains(path)
    }

    /// This is `rule` compiled, the one at `position` in its file.
    pub open spec fn compiled_from(self, rule: RuleView, position: int) -> bool {
        &&& self.position == position
        &&& self.pattern@ == rule.pattern
        &&& strings_view(self.owners@) == rule.owners
        &&& read_as(rule, Some(self.matcher))
    }
}

/// `r` is what compiling the glob of a rule gives: on some machine, and on every machine
/// if the pattern has no backslash.
pub open spec fn read_as(rule: RuleView, r: Option<globset::GlobMatcher>) -> bool {
    &&& exists|separates: bool|
        has_language(r, #[trigger] glob_language(glob_of(rule.pattern), true, separates))
            && known_of(glob_of(rule.pattern), separates, r)
    &&& portable(rule.pattern) ==> forall|separates: bool|
        has_portable_language(r, #[trigger] glob_language(glob_of(rule.pattern), true, separates))
}

/// The rules among the lines of a group.
pub open spec fn rules_of_lines(lines: Seq<LineView>) -> Seq<RuleView>
    decreases lines.len(),
{
    if lines.len() == 0 {
        seq![]
    } else {
        let before = rules_of_lines(lines.drop_last());
        match lines.last() {
            LineView::Rule(rule) => before.push(rule),
            LineView::Comment(_) => before,
        }
    }
}

/// The rules of a file, in order.
pub open spec fn rules_of(groups: Seq<Seq<LineView>>) -> Seq<RuleView>
    decreases groups.len(),
{
    if groups.len() == 0 {
        seq![]
    } else {
        rules_of(groups.drop_last()) + rules_of_lines(groups.last())
    }
}

/// The globs of all rules are small enough to be compiled.
pub open spec fn rules_fit(rules: Seq<RuleView>) -> bool {
    forall|i: int| 0 <= i < rules.len() ==> glob_fits(#[trigger] glob_of(rules[i].pattern))
}

/// Some element of `compiled` is the rule at `position`.
pub open spec fn has_position(compiled: Seq<CompiledRule>, position: int) -> bool {
    exists|k: int| 0 <= k < compiled.len() && (#[trigger] compiled[k]).position == position
}

/// `compiled` holds the well-formed ones among `rules`, in order. Whether a pattern with
/// a backslash is well-formed is up to the machine.
pub open spec fn compiled_rules(rules: Seq<RuleView>, compiled: Seq<CompiledRule>) -> bool {
    &&& forall|k: int| #![trigger compiled[k]]
        0 <= k < compiled.len() ==> compiled[k].position < rules.len() && compiled[k].compiled_from(
            rules[compiled[k].position as int],
            compiled[k].position as int,
        )
    &&& forall|k: int, l: int|
        0 <= k < l < compiled.len() ==> (#[trigger] compiled[k]).position < (
        #[trigger] compiled[l]).position
    &&& forall|i: int|
        0 <= i < rules.len() && !#[trigger] has_position(compiled, i) ==> read_as(rules[i], None)
}

/// The index of the last rule that matches the path, or -1.
pub open spec fn last_match(rules: Seq<CompiledRule>, path: Seq<char>) -> int
    decreases rules.len(),
{
    if rules.len() == 0 {
        -1
    } else if rules.last().matches(path) {
        rules.len() - 1
    } else {
        last_match(rules.drop_last(), path)
    }
}

/// The owners of a path: those of the last rule that matches it, or none.
pub open spec fn owners_by(rules: Seq<CompiledRule>, path: Seq<char>) -> Seq<Seq<char>> {
    let k = last_match(rules, path);
    if 0 <= k < rules.len() {
        strings_view(rules[k].owners@)
    } else {
        seq![]
    }
}

/// Convert a CODEOWNERS pattern to a globset-compatible pattern.
///
/// CODEOWNERS follows gitignore-style rules:
/// - Leading `/` anchors to the repo root (stripped for globset).
/// - Trailing `/` matches the directory and everything within.
/// - A pattern without `/` (or only trailing `/`) matches anywhere.
/// - A pattern with `/` in the beginning or middle is relative to root.
pub fn codeowners_to_glob(pattern: &str) -> (r: String)
    ensures
        r@ == glob_of(pattern@),
{
    let cs: Vec<char> = chars_of(pattern);
    let lo: usize = if cs.len() > 0 && cs[0] == '/' {
        1
    } else {
        0
    };
    let mut result: String = String::new();
    if crate::sorter::is_unanchored(pattern) {
        result.push('*');
        result.push('*');
        result.push('/');
    }
    let ghost head = result@;
    let ghost q = strip_leading(pattern@);
    assert(q == cs@.skip(lo as int));
    for i in lo..cs.len()
        invariant
            q == cs@.skip(lo as int),
            lo <= cs@.len(),
            result@ == head + q.take(i - lo),
    {
        result.push(cs[i]);
        assert(q.take(i + 1 - lo) == q.take(i - lo).push(q[i - lo]));
    }
    assert(q.take(q.len() as int) == q);
    if cs.len() > lo && cs[cs.len() - 1] == '/' {
        result.push('*');
        result.push('*');
        assert(result@ == head + q + seq!['*', '*']);
    }
    assert(result@ == glob_of(pattern@));
    result
}

/// Whether the glob of a pattern is small enough to be compiled.
pub fn pattern_fits(pattern: &str) -> (r: bool)
    ensures
        r == glob_fits(glob_of(pattern@)),
{
    let glob: String = codeowners_to_glob(pattern);
    let cs: Vec<char> = chars_of(glob.as_str());
    crate::limits::fits(cs.as_slice())
}

/// Compile one rule, the one at `position` in its file. A malformed pattern gives
/// nothing.
pub fn compile_rule(rule: &Rule, position: usize) -> (r: Option<CompiledRule>)
    requires
        glob_fits(glob_of(rule.pattern@)),
    ensures
        r matches Some(c) ==> c.compiled_from(rule@, position as int),
        r is None ==> read_as(rule@, None),
{
    let glob: String = codeowners_to_glob(rule.pattern.as_str());
    proof {
        lemma_glob_has(rule.pattern@, '\\');
    }
    match compile_glob(glob.as_str(), true) {
        Some(matcher) => {
            let owners: Vec<String> = rule.owners.clone();
            assert(strings_view(owners@) == strings_view(rule.owners@));
            Some(CompiledRule { pattern: rule.pattern.clone(), position, owners, matcher })
        },
        None => None,
    }
}

/// The views of the rules `rs`.
pub open spec fn rules_view(rs: Seq<&Rule>) -> Seq<RuleView> {
    Seq::new(rs.len(), |i: int| rs[i]@)
}

/// The rules of a file, in order.
pub fn all_rules(file: &File) -> (rules: Vec<&Rule>)
    ensures
        rules_view(rules@) == rules_of(file@),
{
    let mut rules: Vec<&Rule> = Vec::new();
    let ghost gs = file@;
    assert(rules_view(rules@) == rules_of(gs.take(0)));
    for i in 0..file.groups.len()
        invariant
            gs == file@,
            rules_view(rules@) == rules_of(gs.take(i as int)),
    {
        let lines: &Vec<Line> = &file.groups[i].lines;
        let ghost before = rules_of(gs.take(i as int));
        let ghost ls = gs[i as int];
        assert(ls == file.groups@[i as int]@);
        assert(before + rules_of_lines(ls.take(0)) == before);
        for j in 0..lines.len()
            invariant
                ls == crate::ast::lines_view(lines@),
                rules_view(rules@) == before + rules_of_lines(ls.take(j as int)),
        {
            assert(ls.take(j + 1).drop_last() == ls.take(j as int));
            assert(ls.take(j + 1).last() == lines@[j as int]@);
            let ghost seen = rules_view(rules@);
            if let Line::Rule(rule) = &lines[j] {
                rules.push(rule);
                assert(rules_view(rules@) == seen.push(rule@));
                assert(rules_view(rules@) == before + rules_of_lines(ls.take(j + 1)));
            }
        }
        assert(ls.take(ls.len() as int) == ls);
        assert(gs.take(i + 1).drop_last() == gs.take(i as int));
        assert(gs.take(i + 1).last() == ls);
    }
    assert(gs.take(gs.len() as int) == gs);
    rules
}

/// Compile all rules from a CODEOWNERS AST into matchers.
pub fn compile_rules(file: &File) -> (compiled: Vec<CompiledRule>)
    requires
        rules_fit(rules_of(file@)),
    ensures
        compiled_rules(rules_of(file@), compiled@),
{
    let rules: Vec<&Rule> = all_rules(file);
    let mut compiled: Vec<CompiledRule> = Vec::new();
    let ghost all = rules_of(file@);
    for i in 0..rules.len()
        invariant
            all == rules_view(rules@),
            rules_fit(all),
            compiled_rules(all.take(i as int), compiled@),
    {
        let ghost before = compiled@;
        assert(all[i as int] == rules@[i as int]@);
        assert(glob_fits(glob_of(all[i as int].pattern)));
        let outcome: Option<CompiledRule> = compile_rule(rules[i], i);
        match outcome {
            Some(rule) => {
                compiled.push(rule);
            },
            None => {},
        }
        proof {
            lemma_compiled_push(all.take(i as int), all[i as int], before, compiled@, outcome);
            assert(all.take(i + 1) == all.take(i as int).push(all[i as int]));
        }
    }
    assert(all.take(all.len() as int) == all);
    compiled
}

proof fn lemma_compiled_push(
    rules: Seq<RuleView>,
    rule: RuleView,
    before: Seq<CompiledRule>,
    after: Seq<CompiledRule>,
    outcome: Option<CompiledRule>,
)
    requires
        compiled_rules(rules, before),
        outcome matches Some(c) ==> c.compiled_from(rule, rules.len() as int) && after == before.push(c),
        outcome is None ==> after == before,
        outcome is None ==> read_as(rule, None),
    ensures
        compiled_rules(rules.push(rule), after),
{
    let more = rules.push(rule);
    assert forall|k: int| #![trigger after[k]] 0 <= k < after.len() implies after[k].position < more.len()
        && after[k].compiled_from(more[after[k].position as int], after[k].position as int) by {
        if k < before.len() {
            assert(after[k] == before[k]);
        }
    }
    assert forall|i: int| 0 <= i < more.len()
        implies #[trigger] has_position(after, i) == if i < rules.len() {
        has_position(before, i)
    } else {
        outcome is Some
    } by {
        if i < rules.len() {
            if has_position(before, i) {
                let k = choose|k: int| 0 <= k < before.len() && (#[trigger] before[k]).position == i;
                assert(after[k].position == i);
            }
            if has_position(after, i) {
                let k = choose|k: int| 0 <= k < after.len() && (#[trigger] after[k]).position == i;
                assert(before[k].position == i);
            }
        } else {
            if outcome is Some {
                assert(after[before.len() as int].position == i);
            }
            if has_position(after, i) {
                let k = choose|k: int| 0 <= k < after.len() && (#[trigger] after[k]).position == i;
                if k < before.len() {
                    assert(before[k].position < rules.len());
                }
            }
        }
    }
}

/// Find the owners of a given file path using last-match-wins semantics.
/// Returns the owners from the last matching rule, or an empty slice if unowned.
pub fn find_owners<'a>(path: &str, rules: &'a [CompiledRule]) -> (owners: &'a [String])
    ensures
        strings_view(owners@) == owners_by(rules@, path@),
{
    let mut i: usize = rules.len();
    assert(rules@.take(rules@.len() as int) == rules@);
    while i > 0
        invariant
            i <= rules@.len(),
            last_match(rules@.take(i as int), path@) == last_match(rules@, path@),
        decreases i,
    {
        assert(rules@.take(i as int).drop_last() == rules@.take(i - 1));
        if glob_is_match(&rules[i - 1].matcher, path) {
            return rules[i - 1].owners.as_slice();
        }
        i = i - 1;
    }
    let none: &'a [String] = &[];
    assert(strings_view(none@) == Seq::<Seq<char>>::empty());
    none
}

/// The indices of the rules that match a path, in increasing order.
pub open spec fn all_matches(rules: Seq<CompiledRule>, path: Seq<char>) -> Seq<usize>
    decreases rules.len(),
{
    if rules.len() == 0 {
        seq![]
    } else {
        let before = all_matches(rules.drop_last(), path);
        if rules.last().matches(path) {
            before.push((rules.len() - 1) as usize)
        } else {
            before
        }
    }
}

/// The compiled rules of a file.
pub struct RuleSet {
    pub rules: Vec<CompiledRule>,
}

impl RuleSet {
    /// Compile the rules of a file. `None` if a pattern is too large to be compiled.
    pub fn new(file: &File) -> (r: Option<RuleSet>)
        ensures
            r is Some <==> rules_fit(rules_of(file@)),
            r matches Some(set) ==> compiled_rules(rules_of(file@), set.rules@),
    {
        let rules: Vec<&Rule> = all_rules(file);
        let ghost all = rules_of(file@);
        for i in 0..rules.len()
            invariant
                all == rules_of(file@),
                all == rules_view(rules@),
                forall|k: int| 0 <= k < i ==> glob_fits(#[trigger] glob_of(all[k].pattern)),
        {
            assert(all[i as int] == rules@[i as int]@);
            if !pattern_fits(rules[i].pattern.as_str()) {
                assert(!glob_fits(glob_of(all[i as int].pattern)));
                return None;
            }
        }
        Some(RuleSet { rules: compile_rules(file) })
    }

    /// Find the owners of a path: those of the last rule that matches it.
    pub fn find_owners(&self, path: &str) -> (owners: &[String])
        ensures
            strings_view(owners@) == owners_by(self.rules@, path@),
    {
        find_owners(path, self.rules.as_slice())
    }

    /// Find all rules that match a path, by index and in order.
    pub fn find_all_matching(&self, path: &str) -> (r: Vec<usize>)
        ensures
            r@ == all_matches(self.rules@, path@),
    {
        let mut r: Vec<usize> = Vec::new();
        for i in 0..self.rules.len()
            invariant
                r@ == all_matches(self.rules@.take(i as int), path@),
        {
            assert(self.rules@.take(i + 1).drop_last() == self.rules@.take(i as int));
            if glob_is_match(&self.rules[i].matcher, path) {
                r.push(i);
            }
        }
        assert(self.rules@.take(self.rules@.len() as int) == self.rules@);
        r
    }
}

/// A glob has the characters of its pattern, apart from asterisks and slashes.
pub proof fn lemma_glob_has(p: Seq<char>, c: char)
    requires
        c != '*',
        c != '/',
    ensures
        glob_of(p).contains(c) <==> p.contains(c),
{
    let g = glob_of(p);
    let q = strip_leading(p);
    let off: int = p.len() - q.len();
    let h: int = if unanchored(p) {
        3
    } else {
        0
    };
    if g.contains(c) {
        let i = choose|i: int| 0 <= i < g.len() && g[i] == c;
        assert(h <= i < h + q.len());
        assert(g[i] == q[i - h]);
        assert(q[i - h] == p[i - h + off]);
    }
    if p.contains(c) {
        let i = choose|i: int| 0 <= i < p.len() && p[i] == c;
        assert(q[i - off] == c);
        assert(g[h + i - off] == c);
    }
}

/// A rule is kept if its pattern has no classes and no alternatives, and does not end with
/// a backslash: nothing else makes a pattern malformed.
pub proof fn lemma_simple_rule_kept(rules: Seq<RuleView>, compiled: Seq<CompiledRule>, i: int)
    requires
        compiled_rules(rules, compiled),
        0 <= i < rules.len(),
        !rules[i].pattern.contains('['),
        !rules[i].pattern.contains('{'),
        !rules[i].pattern.contains('}'),
        !ends_with(rules[i].pattern, '\\'),
    ensures
        has_position(compiled, i),
{
    let p = rules[i].pattern;
    let g = glob_of(p);
    lemma_glob_has(p, '[');
    lemma_glob_has(p, '{');
    lemma_glob_has(p, '}');
    lemma_nothing_open(g, true);
    lemma_nothing_open(g, false);
    assert(!(g.len() > 0 && g.last() == '\\')) by {
        let q = strip_leading(p);
        if ends_with(q, '/') {
            assert(g.last() == '*');
        } else if q.len() > 0 {
            assert(g.last() == q.last());
            assert(q.last() == p.last());
        }
    }
}

} // verus!
