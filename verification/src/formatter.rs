//! Formatting a CODEOWNERS AST back into text.
use vstd::prelude::*;

use crate::ast::{File, Group, Line, Rule};
use crate::text::push_joined;

verus! {

use vstd::utf8::encode_utf8;
use crate::ast::{LineView, RuleView};
use crate::text::{join_words, unlines};

/// Maximum global alignment column. The global column is the largest natural
/// column across all groups, but capped at this value. Groups that exceed it
/// fall back to their own natural alignment.
pub const MAX_OWNER_COLUMN: u128 = 90;

/// The number of bytes that `s` takes in UTF-8.
pub open spec fn byte_len(s: Seq<char>) -> nat {
    encode_utf8(s).len()
}

/// The width of the pattern of a rule that has owners.
pub open spec fn owned_width(line: LineView) -> Option<nat> {
    match line {
        LineView::Rule(r) => if r.owners.len() > 0 {
            Some(byte_len(r.pattern))
        } else {
            None
        },
        LineView::Comment(_) => None,
    }
}

/// The column one space after the longest pattern among the rules with owners.
pub open spec fn natural_column(group: Seq<LineView>) -> Option<nat>
    decreases group.len(),
{
    if group.len() == 0 {
        None
    } else {
        match (natural_column(group.drop_last()), owned_width(group.last())) {
            (Some(c), Some(w)) => Some(
                if w + 1 > c {
                    w + 1
                } else {
                    c
                },
            ),
            (None, Some(w)) => Some(w + 1),
            (c, None) => c,
        }
    }
}

/// The largest natural column that does not exceed the cap, or 0.
pub open spec fn global_column(groups: Seq<Seq<LineView>>) -> nat
    decreases groups.len(),
{
    if groups.len() == 0 {
        0
    } else {
        let c = global_column(groups.drop_last());
        match natural_column(groups.last()) {
            Some(n) => if n <= MAX_OWNER_COLUMN && n > c {
                n
            } else {
                c
            },
            None => c,
        }
    }
}

/// The column at which the owners of a group start.
pub open spec fn owner_column(group: Seq<LineView>, global: nat) -> nat {
    match natural_column(group) {
        Some(n) => if n > global {
            n
        } else {
            global
        },
        None => global,
    }
}

/// `n` spaces.
pub open spec fn spaces(n: nat) -> Seq<char> {
    Seq::new(n, |i: int| ' ')
}

/// How many spaces stand between a pattern of `width` bytes and the owners.
pub open spec fn padding(column: nat, width: nat) -> nat {
    if column > width {
        (column - width) as nat
    } else {
        1
    }
}

/// The text of a rule whose owners start at `column`.
pub open spec fn rule_text(rule: RuleView, column: nat) -> Seq<char> {
    let owned = if rule.owners.len() > 0 {
        rule.pattern + spaces(padding(column, byte_len(rule.pattern))) + join_words(rule.owners)
    } else {
        rule.pattern
    };
    match rule.inline_comment {
        Some(c) => owned.push(' ') + c,
        None => owned,
    }
}

/// The text of a line.
pub open spec fn line_text(line: LineView, column: nat) -> Seq<char> {
    match line {
        LineView::Comment(text) => text,
        LineView::Rule(rule) => rule_text(rule, column),
    }
}

/// The texts of the lines of a group.
pub open spec fn group_texts(group: Seq<LineView>, global: nat) -> Seq<Seq<char>> {
    Seq::new(group.len(), |i: int| line_text(group[i], owner_column(group, global)))
}

/// The texts of all lines, with one blank line between each two groups.
pub open spec fn file_texts(groups: Seq<Seq<LineView>>, global: nat) -> Seq<Seq<char>>
    decreases groups.len(),
{
    if groups.len() == 0 {
        seq![]
    } else if groups.len() == 1 {
        group_texts(groups[0], global)
    } else {
        file_texts(groups.drop_last(), global).push(seq![]) + group_texts(groups.last(), global)
    }
}

/// `text`, with a line feed added unless it ends with one.
pub open spec fn ensure_newline(text: Seq<char>) -> Seq<char> {
    if text.len() > 0 && text.last() == '\n' {
        text
    } else {
        text.push('\n')
    }
}

/// The formatted text of a file.
pub open spec fn format_of(groups: Seq<Seq<LineView>>) -> Seq<char> {
    ensure_newline(unlines(file_texts(groups, global_column(groups))))
}

/// The lines of `a + b` are those of `a` and then those of `b`.
pub proof fn lemma_unlines_concat(a: Seq<Seq<char>>, b: Seq<Seq<char>>)
    ensures
        unlines(a + b) == unlines(a) + unlines(b),
    decreases b.len(),
{
    if b.len() == 0 {
        assert(a + b == a);
        assert(unlines(a) + unlines(b) == unlines(a));
    } else {
        assert((a + b).drop_last() == a + b.drop_last());
        lemma_unlines_concat(a, b.drop_last());
        assert(unlines(a + b) == unlines(a) + unlines(b));
    }
}

/// Format a CODEOWNERS AST back into a string.
///
/// Formatting rules:
/// - A global alignment column is computed as the largest natural column across
///   all groups, capped at 90. Groups that fit within this use the global column.
/// - Groups whose longest pattern exceeds the global column align to their own
///   natural column (longest pattern + 1 space) instead.
/// - Groups are separated by exactly one blank line.
/// - Comments are preserved as-is.
/// - Inline comments are separated from the last owner by one space.
/// - Multiple consecutive blank lines in the source are collapsed to one.
pub fn format(file: &File) -> (output: String)
    ensures
        output@ == format_of(file@),
{
    // Find the global column: max natural column across all groups, capped.
    // When no group fits under the cap (all oversized, or no owned rules),
    // each group will fall back to its own natural column in format_group.
    let mut column: u128 = 0;
    let ghost gs = file@;
    for i in 0..file.groups.len()
        invariant
            gs == file@,
            column as nat == global_column(gs.take(i as int)),
    {
        assert(gs.take(i + 1).drop_last() == gs.take(i as int));
        assert(gs.take(i + 1).last() == file.groups@[i as int]@);
        if let Some(natural) = natural_owner_column(&file.groups[i]) {
            if natural <= MAX_OWNER_COLUMN && natural > column {
                column = natural;
            }
        }
    }
    assert(gs.take(gs.len() as int) == gs);

    let ghost global = column as nat;
    let mut output: String = String::new();
    assert(gs.take(0) == Seq::<Seq<LineView>>::empty());
    for i in 0..file.groups.len()
        invariant
            gs == file@,
            global == column as nat,
            output@ == unlines(file_texts(gs.take(i as int), global)),
    {
        let ghost before = file_texts(gs.take(i as int), global);
        let ghost texts = group_texts(gs[i as int], global);
        if i > 0 {
            output.push('\n');
            proof {
                let blank_line: Seq<char> = seq![];
                assert(before.push(blank_line).drop_last() == before);
                assert(unlines(before.push(blank_line)) == unlines(before).push('\n'));
            }
        }
        format_group(&file.groups[i], column, &mut output);
        proof {
            assert(gs[i as int] == file.groups@[i as int]@);
            assert(gs.take(i + 1).drop_last() == gs.take(i as int));
            if i == 0 {
                assert(gs.take(1)[0] == gs[0]);
                assert(before == Seq::<Seq<char>>::empty());
                assert(unlines(before) + unlines(texts) == unlines(texts));
            } else {
                lemma_unlines_concat(before.push(seq![]), texts);
            }
        }
    }
    assert(gs.take(gs.len() as int) == gs);

    // Ensure file ends with a newline.
    if !ends_with_newline(&output) {
        output.push('\n');
    }
    output
}

fn ends_with_newline(s: &String) -> (r: bool)
    ensures
        r == (s@.len() > 0 && s@.last() == '\n'),
{
    let cs: Vec<char> = crate::text::chars_of(s.as_str());
    cs.len() > 0 && cs[cs.len() - 1] == '\n'
}

/// Compute the natural owner column for a group (longest pattern + 1 space).
/// Returns `None` if the group has no rules with owners.
///
/// Columns are counted in 128 bits, so that the one after the longest pattern
/// always fits.
pub fn natural_owner_column(group: &Group) -> (r: Option<u128>)
    ensures
        r is Some <==> natural_column(group@) is Some,
        r matches Some(c) ==> Some(c as nat) == natural_column(group@),
{
    let mut best: Option<u128> = None;
    let ghost ls = group@;
    for i in 0..group.lines.len()
        invariant
            ls == group@,
            best is Some <==> natural_column(ls.take(i as int)) is Some,
            best matches Some(c) ==> Some(c as nat) == natural_column(ls.take(i as int)),
    {
        assert(ls.take(i + 1).drop_last() == ls.take(i as int));
        assert(ls.take(i + 1).last() == group.lines@[i as int]@);
        if let Line::Rule(rule) = &group.lines[i] {
            if rule.owners.len() > 0 {
                let column: u128 = rule.pattern.as_str().as_bytes().len() as u128 + 1;
                best = match best {
                    Some(c) => Some(
                        if column > c {
                            column
                        } else {
                            c
                        },
                    ),
                    None => Some(column),
                };
            }
        }
    }
    assert(ls.take(ls.len() as int) == ls);
    best
}

/// Append the lines of a group. The owners start at the global column, unless
/// the group's longest pattern exceeds it.
pub fn format_group(group: &Group, column: u128, output: &mut String)
    ensures
        final(output)@ == old(output)@ + unlines(group_texts(group@, column as nat)),
{
    let owner_col: u128 = match natural_owner_column(group) {
        Some(c) => if c > column {
            c
        } else {
            column
        },
        None => column,
    };
    let ghost start = output@;
    let ghost texts = group_texts(group@, column as nat);
    assert(start + unlines(texts.take(0)) == start);
    for i in 0..group.lines.len()
        invariant
            texts == group_texts(group@, column as nat),
            owner_col as nat == owner_column(group@, column as nat),
            output@ == start + unlines(texts.take(i as int)),
    {
        let ghost before = output@;
        match &group.lines[i] {
            Line::Comment(comment) => {
                output.append(comment.text.as_str());
            },
            Line::Rule(rule) => {
                push_rule(rule, owner_col, output);
            },
        }
        output.push('\n');
        proof {
            let text = line_text(group.lines@[i as int]@, owner_col as nat);
            assert(texts[i as int] == text);
            assert(texts.take(i + 1).drop_last() == texts.take(i as int));
            assert(output@ == before + text.push('\n'));
            assert(output@ == start + unlines(texts.take(i + 1)));
        }
    }
    assert(texts.take(texts.len() as int) == texts);
}

fn push_rule(rule: &Rule, column: u128, output: &mut String)
    ensures
        final(output)@ == old(output)@ + rule_text(rule@, column as nat),
{
    let ghost start = output@;
    output.append(rule.pattern.as_str());
    if rule.owners.len() > 0 {
        // Pad to the owner column.
        let width: u128 = rule.pattern.as_str().as_bytes().len() as u128;
        let count: u128 = if column > width {
            column - width
        } else {
            1
        };
        push_spaces(count, output);
        push_joined(output, &rule.owners);
        assert(output@ == start + (rule@.pattern + spaces(padding(column as nat, byte_len(rule@.pattern)))
            + join_words(rule@.owners)));
    }
    let ghost owned = output@;
    if let Some(comment) = &rule.inline_comment {
        output.push(' ');
        output.append(comment.as_str());
        assert(output@ == owned.push(' ') + comment@);
    }
    assert(output@ == start + rule_text(rule@, column as nat));
}

fn push_spaces(count: u128, output: &mut String)
    ensures
        final(output)@ == old(output)@ + spaces(count as nat),
{
    let ghost start = output@;
    let mut i: u128 = 0;
    assert(start + spaces(0) == start);
    while i < count
        invariant
            i <= count,
            output@ == start + spaces(i as nat),
        decreases count - i,
    {
        output.push(' ');
        i = i + 1;
        assert(spaces(i as nat) == spaces((i - 1) as nat).push(' '));
    }
}

// ---------------------------------------------------------------------------
// What the formatted text looks like
// ---------------------------------------------------------------------------

/// The natural column is one space after the longest pattern that has owners.
pub proof fn lemma_natural_column(group: Seq<LineView>)
    ensures
        natural_column(group) is None <==> forall|i: int|
            0 <= i < group.len() ==> owned_width(#[trigger] group[i]) is None,
        natural_column(group) matches Some(n) ==> {
            &&& forall|i: int|
                0 <= i < group.len() ==> (owned_width(#[trigger] group[i]) matches Some(w) ==> w + 1 <= n)
            &&& exists|i: int|
                0 <= i < group.len() && (owned_width(#[trigger] group[i]) matches Some(w) && w + 1 == n)
        },
    decreases group.len(),
{
    if group.len() > 0 {
        let front = group.drop_last();
        let last = group.len() - 1;
        lemma_natural_column(front);
        assert forall|i: int| 0 <= i < last implies front[i] == #[trigger] group[i] by {}
        if let Some(c) = natural_column(front) {
            let k = choose|i: int| 0 <= i < front.len()
                && (owned_width(#[trigger] front[i]) matches Some(w) && w + 1 == c);
            assert(owned_width(group[k]) == owned_width(front[k]));
        }
        assert(owned_width(group[last]) == owned_width(group.last()));
        assert forall|i: int| 0 <= i < group.len()
            implies (owned_width(#[trigger] group[i]) matches Some(w)
            ==> natural_column(group) matches Some(n) && w + 1 <= n) by {
            if i < last {
                assert(owned_width(front[i]) == owned_width(group[i]));
            }
        }
        if forall|i: int| 0 <= i < group.len() ==> owned_width(#[trigger] group[i]) is None {
            assert forall|i: int| 0 <= i < front.len() implies owned_width(#[trigger] front[i]) is None by {
                assert(owned_width(group[i]) is None);
            }
        }
    }
}

/// Within a group all owners start at the same column: each pattern is narrower than the
/// owner column, and is padded up to it.
pub proof fn lemma_owners_aligned(group: Seq<LineView>, global: nat, i: int)
    requires
        0 <= i < group.len(),
        owned_width(group[i]) is Some,
    ensures
        owned_width(group[i])->0 < owner_column(group, global),
        owned_width(group[i])->0 + padding(owner_column(group, global), owned_width(group[i])->0)
            == owner_column(group, global),
{
    lemma_natural_column(group);
}

/// All groups that fit below the cap share the global column, and each of the others has
/// its natural column.
pub proof fn lemma_shared_column(groups: Seq<Seq<LineView>>, g: int)
    requires
        0 <= g < groups.len(),
        natural_column(groups[g]) is Some,
    ensures
        global_column(groups) <= MAX_OWNER_COLUMN,
        natural_column(groups[g])->0 <= MAX_OWNER_COLUMN ==> owner_column(groups[g], global_column(groups))
            == global_column(groups),
        natural_column(groups[g])->0 > MAX_OWNER_COLUMN ==> owner_column(groups[g], global_column(groups))
            == natural_column(groups[g])->0,
    decreases groups.len(),
{
    lemma_global_column_capped(groups);
    let front = groups.drop_last();
    if g < front.len() {
        lemma_shared_column(front, g);
        assert(front[g] == groups[g]);
    }
}

proof fn lemma_global_column_capped(groups: Seq<Seq<LineView>>)
    ensures
        global_column(groups) <= MAX_OWNER_COLUMN,
    decreases groups.len(),
{
    if groups.len() > 0 {
        lemma_global_column_capped(groups.drop_last());
    }
}

/// The formatted text ends with a line feed.
pub proof fn lemma_ends_with_newline(groups: Seq<Seq<LineView>>)
    ensures
        format_of(groups).len() > 0,
        format_of(groups).last() == '\n',
{
}

/// The lines of a group as they are written start with what the group holds: a comment is
/// written as it is, and a rule starts with its pattern.
pub proof fn lemma_line_text_starts(line: LineView, column: nat)
    ensures
        line matches LineView::Comment(text) ==> line_text(line, column) == text,
        line matches LineView::Rule(rule) ==> rule.pattern.is_prefix_of(line_text(line, column)),
{
    if let LineView::Rule(rule) = line {
        let p = rule.pattern;
        let text = line_text(line, column);
        assert(p == text.subrange(0, p.len() as int));
    }
}

/// Where the formatted text has an empty line, it separates two groups: it is neither the
/// first nor the last line, and the lines around it are not empty.
pub proof fn lemma_single_blank_lines(groups: Seq<Seq<LineView>>, global: nat, i: int)
    requires
        crate::roundtrip::well_formed(groups),
        0 <= i < file_texts(groups, global).len(),
        file_texts(groups, global)[i].len() == 0,
    ensures
        0 < i < file_texts(groups, global).len() - 1,
        file_texts(groups, global)[i - 1].len() > 0,
        file_texts(groups, global)[i + 1].len() > 0,
{
    lemma_blank_lines_at(groups, global);
}

proof fn lemma_blank_lines_at(groups: Seq<Seq<LineView>>, global: nat)
    requires
        crate::roundtrip::well_formed(groups),
    ensures
        groups.len() > 0 ==> file_texts(groups, global).len() > 0 && file_texts(groups, global)[0].len() > 0
            && file_texts(groups, global).last().len() > 0,
        forall|i: int| #![trigger file_texts(groups, global)[i]]
            0 <= i < file_texts(groups, global).len() && file_texts(groups, global)[i].len() == 0 ==> 0 < i
                < file_texts(groups, global).len() - 1 && file_texts(groups, global)[i - 1].len() > 0
                && file_texts(groups, global)[i + 1].len() > 0,
    decreases groups.len(),
{
    if groups.len() > 0 {
        let g = groups.last();
        let texts = group_texts(g, global);
        let column = owner_column(g, global);
        assert(crate::roundtrip::well_formed_group(groups[groups.len() - 1]));
        assert forall|i: int| 0 <= i < texts.len() implies (#[trigger] texts[i]).len() > 0 by {
            assert(crate::roundtrip::well_formed_line(g[i]));
            lemma_line_text_starts(g[i], column);
        }
        assert(texts[0].len() > 0);
        assert(texts[texts.len() - 1].len() > 0);
        if groups.len() == 1 {
            assert(groups[0] == g);
        } else {
            let front = groups.drop_last();
            assert forall|i: int| 0 <= i < front.len()
                implies crate::roundtrip::well_formed_group(#[trigger] front[i]) by {
                assert(front[i] == groups[i]);
            }
            lemma_blank_lines_at(front, global);
            let before = file_texts(front, global);
            let all = file_texts(groups, global);
            let n = before.len() as int;
            assert(all == before.push(seq![]) + texts);
            assert forall|i: int| #![trigger all[i]] 0 <= i < all.len() && all[i].len() == 0
                implies 0 < i < all.len() - 1 && all[i - 1].len() > 0 && all[i + 1].len() > 0 by {
                if i < n {
                    assert(before[i].len() == 0);
                    assert(before[i - 1].len() > 0 && before[i + 1].len() > 0);
                    assert(all[i - 1] == before[i - 1]);
                    assert(all[i + 1] == before[i + 1]);
                } else if i == n {
                    assert(all[n - 1] == before[n - 1]);
                    assert(all[n + 1] == texts[0]);
                } else {
                    assert(all[i] == texts[i - n - 1]);
                }
            }
            assert(all[0] == before[0]);
            assert(all.last() == texts.last());
        }
    }
}

} // verus!
