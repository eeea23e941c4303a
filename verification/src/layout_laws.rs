//! What formatted text looks like: which line stands where, and at which column the owners
//! start.
use vstd::prelude::*;

verus! {

use vstd::utf8::encode_utf8;
use crate::ast::{LineView, RuleView};
use crate::formatter::{
    byte_len, file_texts, format_of, global_column, group_texts, lemma_natural_column, line_text,
    natural_column, owned_width, owner_column, spaces,
};
use crate::roundtrip::{lemma_formatted_lines, well_formed};
use crate::text::{join_words, lines_of, unlines};

/// The line is a rule with owners whose pattern takes `width` bytes in UTF-8.
pub open spec fn owned_rule(line: LineView, width: int) -> bool {
    line matches LineView::Rule(r) && r.owners.len() > 0 && encode_utf8(r.pattern).len() == width
}

/// The natural column of a group is one after the widest pattern that has owners, and there
/// is none without such a pattern.
pub proof fn lemma_natural(group: Seq<LineView>)
    ensures
        forall|i: int, w: int| 0 <= i < group.len() && #[trigger] owned_rule(group[i], w) ==> natural_column(
            group,
        ) is Some && w + 1 <= natural_column(group)->0,
        natural_column(group) matches Some(n) ==> exists|i: int|
            0 <= i < group.len() && owned_rule(#[trigger] group[i], n - 1),
{
    lemma_natural_column(group);
    assert forall|i: int, w: int| 0 <= i < group.len() && #[trigger] owned_rule(group[i], w)
        implies natural_column(
        group,
    ) is Some && w + 1 <= natural_column(group)->0 by {
        assert(owned_width(group[i]) == Some(w as nat));
    }
    if let Some(n) = natural_column(group) {
        let i = choose|i: int|
            0 <= i < group.len() && (owned_width(#[trigger] group[i]) matches Some(w) && w + 1 == n);
        assert(owned_rule(group[i], n - 1));
    }
}

/// The global column is the largest natural column that is at most 90, and 0 if there is
/// none.
pub proof fn lemma_global(groups: Seq<Seq<LineView>>)
    ensures
        forall|g: int| 0 <= g < groups.len()
            ==> (natural_column(#[trigger] groups[g]) matches Some(n) ==> n > 90 || n
            <= global_column(groups)),
        global_column(groups) != 0 ==> global_column(groups) <= 90 && exists|g: int|
            0 <= g < groups.len() && natural_column(#[trigger] groups[g]) == Some(global_column(groups)),
    decreases groups.len(),
{
    if groups.len() > 0 {
        let front = groups.drop_last();
        let last = groups.len() - 1;
        lemma_global(front);
        assert(groups[last] == groups.last());
        assert forall|g: int| 0 <= g < groups.len()
            implies (natural_column(#[trigger] groups[g]) matches Some(n) ==> n
            > 90 || n <= global_column(groups)) by {
            if g < last {
                assert(front[g] == groups[g]);
            }
        }
        if global_column(front) != 0 {
            let g = choose|g: int|
                0 <= g < front.len() && natural_column(#[trigger] front[g]) == Some(global_column(front));
            assert(groups[g] == front[g]);
        }
    }
}

/// The owners of a group start at the global column, or at the natural column of the group
/// if that is larger.
pub proof fn lemma_owner_column(group: Seq<LineView>, global: nat)
    ensures
        owner_column(group, global) >= global,
        natural_column(group) matches Some(n) ==> owner_column(group, global) >= n,
        owner_column(group, global) == global || natural_column(group) == Some(owner_column(group, global)),
{
}

/// Formatting leaves no more space than needed: if there is a global column, then in some
/// rule the owners stand one space after the pattern.
pub proof fn lemma_tightest_rule(groups: Seq<Seq<LineView>>) -> (r: (int, int))
    requires
        global_column(groups) > 0,
    ensures
        0 <= r.0 < groups.len(),
        0 <= r.1 < groups[r.0].len(),
        owned_rule(groups[r.0][r.1], owner_column(groups[r.0], global_column(groups)) - 1),
        owner_column(groups[r.0], global_column(groups)) == global_column(groups),
{
    lemma_global(groups);
    let g = choose|g: int|
        0 <= g < groups.len() && natural_column(#[trigger] groups[g]) == Some(global_column(groups));
    lemma_natural(groups[g]);
    let i = choose|i: int|
        0 <= i < groups[g].len() && owned_rule(#[trigger] groups[g][i], global_column(groups) - 1);
    (g, i)
}

/// A comment is written as it is. A rule is written as its pattern, its owners after spaces
/// up to the column and with one space between each two, and its inline comment after one
/// more space.
pub proof fn lemma_line_written(rule: RuleView, comment: Seq<char>, column: nat)
    ensures
        line_text(LineView::Comment(comment), column) == comment,
        ({
            let width = encode_utf8(rule.pattern).len();
            let gap = if column > width {
                (column - width) as nat
            } else {
                1
            };
            let owned = if rule.owners.len() == 0 {
                rule.pattern
            } else {
                rule.pattern + Seq::new(gap, |i: int| ' ') + join_words(rule.owners)
            };
            line_text(LineView::Rule(rule), column) == match rule.inline_comment {
                Some(c) => owned + seq![' '] + c,
                None => owned,
            }
        }),
{
    let width = encode_utf8(rule.pattern).len();
    let gap = if column > width {
        (column - width) as nat
    } else {
        1
    };
    assert(byte_len(rule.pattern) == width);
    assert(spaces(gap) =~= Seq::new(gap, |i: int| ' '));
    let owned = if rule.owners.len() == 0 {
        rule.pattern
    } else {
        rule.pattern + Seq::new(gap, |i: int| ' ') + join_words(rule.owners)
    };
    if let Some(c) = rule.inline_comment {
        assert(owned.push(' ') + c == owned + seq![' '] + c);
    }
}

/// The number of the line, counted from 0, on which the group `g` starts: the groups before
/// it take their lines and one blank line each.
pub open spec fn first_line(groups: Seq<Seq<LineView>>, g: int) -> int
    decreases g,
{
    if g <= 0 {
        0
    } else {
        first_line(groups, g - 1) + groups[g - 1].len() + 1
    }
}

proof fn lemma_first_line(a: Seq<Seq<LineView>>, b: Seq<Seq<LineView>>, g: int)
    requires
        forall|k: int| 0 <= k < g ==> a[k] == b[k],
    ensures
        first_line(a, g) == first_line(b, g),
        first_line(a, g) >= 0,
    decreases g,
{
    if g > 0 {
        lemma_first_line(a, b, g - 1);
    }
}

proof fn lemma_text_count(groups: Seq<Seq<LineView>>, global: nat)
    requires
        groups.len() > 0,
    ensures
        file_texts(groups, global).len() == first_line(groups, groups.len() - 1) + groups[groups.len() - 1].len(),
    decreases groups.len(),
{
    let n = groups.len() - 1;
    if n > 0 {
        let front = groups.drop_last();
        lemma_text_count(front, global);
        lemma_first_line(front, groups, n - 1);
        assert(front[n - 1] == groups[n - 1]);
    }
}

proof fn lemma_text_at(groups: Seq<Seq<LineView>>, global: nat, g: int, i: int)
    requires
        0 <= g < groups.len(),
        0 <= i < groups[g].len(),
    ensures
        0 <= first_line(groups, g) + i < file_texts(groups, global).len(),
        file_texts(groups, global)[first_line(groups, g) + i] == line_text(
            groups[g][i],
            owner_column(groups[g], global),
        ),
    decreases groups.len(),
{
    let n = groups.len() - 1;
    let texts = file_texts(groups, global);
    let last = group_texts(groups[n], global);
    lemma_first_line(groups, groups, g);
    if n == 0 {
        assert(texts[i] == last[i]);
    } else {
        let front = groups.drop_last();
        let before = file_texts(front, global);
        lemma_text_count(front, global);
        lemma_first_line(front, groups, n - 1);
        assert(front[n - 1] == groups[n - 1]);
        assert(first_line(groups, n) == before.len() + 1);
        if g < n {
            assert(front[g] == groups[g]);
            lemma_text_at(front, global, g, i);
            lemma_first_line(front, groups, g);
            assert(texts[first_line(groups, g) + i] == before[first_line(groups, g) + i]);
        } else {
            assert(texts[first_line(groups, n) + i] == last[i]);
        }
    }
}

proof fn lemma_blank_at(groups: Seq<Seq<LineView>>, global: nat, g: int)
    requires
        0 < g < groups.len(),
    ensures
        0 <= first_line(groups, g) - 1 < file_texts(groups, global).len(),
        file_texts(groups, global)[first_line(groups, g) - 1].len() == 0,
    decreases groups.len(),
{
    let n = groups.len() - 1;
    let texts = file_texts(groups, global);
    let front = groups.drop_last();
    let before = file_texts(front, global);
    lemma_text_count(front, global);
    lemma_first_line(front, groups, n - 1);
    assert(front[n - 1] == groups[n - 1]);
    assert(first_line(groups, n) == before.len() + 1);
    if g < n {
        lemma_blank_at(front, global, g);
        lemma_first_line(front, groups, g);
        assert(texts[first_line(groups, g) - 1] == before[first_line(groups, g) - 1]);
    } else {
        assert(texts[before.len() as int] == Seq::<char>::empty());
    }
}

/// Formatted text has the lines of the groups in order, each as it is written.
pub proof fn lemma_formatted_line(groups: Seq<Seq<LineView>>, g: int, i: int)
    requires
        well_formed(groups),
        0 <= g < groups.len(),
        0 <= i < groups[g].len(),
    ensures
        0 <= first_line(groups, g) + i < lines_of(format_of(groups)).len(),
        lines_of(format_of(groups))[first_line(groups, g) + i] == line_text(
            groups[g][i],
            owner_column(groups[g], global_column(groups)),
        ),
{
    lemma_formatted_lines(groups);
    lemma_text_at(groups, global_column(groups), g, i);
}

/// Formatted text has one blank line before each group but the first.
pub proof fn lemma_formatted_blank_line(groups: Seq<Seq<LineView>>, g: int)
    requires
        well_formed(groups),
        0 < g < groups.len(),
    ensures
        0 <= first_line(groups, g) - 1 < lines_of(format_of(groups)).len(),
        lines_of(format_of(groups))[first_line(groups, g) - 1].len() == 0,
{
    lemma_formatted_lines(groups);
    lemma_blank_at(groups, global_column(groups), g);
}

/// Formatted text has no other lines than those of the groups and one between each two, and
/// each is ended by one line feed.
pub proof fn lemma_formatted_whole(groups: Seq<Seq<LineView>>)
    requires
        well_formed(groups),
        groups.len() > 0,
    ensures
        lines_of(format_of(groups)).len() == first_line(groups, groups.len() - 1) + groups[groups.len() - 1].len(),
        format_of(groups) == unlines(lines_of(format_of(groups))),
{
    lemma_formatted_lines(groups);
    lemma_text_count(groups, global_column(groups));
}

/// Whatever a file holds, its lines are written in order, each as it is, with one blank line
/// between each two groups, and each ended by one line feed; and if that is no line at all, one
/// line feed is written.
pub proof fn lemma_written(groups: Seq<Seq<LineView>>, texts: Seq<Seq<char>>)
    requires
        groups.len() > 0,
        texts.len() == first_line(groups, groups.len() - 1) + groups[groups.len() - 1].len(),
        forall|g: int, i: int|
            #![trigger groups[g][i]]
            0 <= g < groups.len() && 0 <= i < groups[g].len()
                ==> texts[first_line(groups, g) + i] == line_text(
                groups[g][i],
                owner_column(groups[g], global_column(groups)),
            ),
        forall|g: int| 0 < g < groups.len() ==> texts[#[trigger] first_line(groups, g) - 1].len() == 0,
    ensures
        texts.len() > 0 ==> format_of(groups) == unlines(texts),
        texts.len() == 0 ==> format_of(groups) == seq!['\n'],
{
    let global = global_column(groups);
    let written = file_texts(groups, global);
    lemma_text_count(groups, global);
    assert forall|j: int| 0 <= j < texts.len() implies texts[j] == written[j] by {
        let g = lemma_line_is_somewhere(groups, j);
        if j < first_line(groups, g) + groups[g].len() {
            let i = j - first_line(groups, g);
            lemma_text_at(groups, global, g, i);
            assert(groups[g][i] == groups[g][i]);
        } else {
            lemma_blank_at(groups, global, g + 1);
            assert(texts[first_line(groups, g + 1) - 1].len() == 0);
            assert(texts[j] =~= written[j]);
        }
    }
    assert(texts =~= written);
    if texts.len() > 0 {
        let last = texts.last();
        assert(unlines(texts) == unlines(texts.drop_last()) + last.push('\n'));
        assert(unlines(texts).last() == '\n');
    } else {
        assert(unlines(texts) == Seq::<char>::empty());
        assert(Seq::<char>::empty().push('\n') == seq!['\n']);
    }
}

/// Each line belongs to some group, or is the blank line after it.
proof fn lemma_line_is_somewhere(groups: Seq<Seq<LineView>>, j: int) -> (g: int)
    requires
        groups.len() > 0,
        0 <= j < first_line(groups, groups.len() - 1) + groups[groups.len() - 1].len(),
    ensures
        0 <= g < groups.len(),
        first_line(groups, g) <= j <= first_line(groups, g) + groups[g].len(),
        j == first_line(groups, g) + groups[g].len() ==> g + 1 < groups.len(),
    decreases groups.len(),
{
    let n = groups.len() - 1;
    if j >= first_line(groups, n) {
        n
    } else {
        let front = groups.drop_last();
        assert(front[n - 1] == groups[n - 1]);
        lemma_first_line(front, groups, n - 1);
        if j == first_line(groups, n) - 1 {
            n - 1
        } else {
            let g = lemma_line_is_somewhere(front, j);
            lemma_first_line(front, groups, g);
            assert(front[g] == groups[g]);
            g
        }
    }
}

/// The lines of a group are written in order, with the owners of all at the same column.
pub proof fn lemma_group_written(group: Seq<LineView>, global: nat, i: int)
    ensures
        group_texts(group, global).len() == group.len(),
        0 <= i < group.len()
            ==> group_texts(group, global)[i] == line_text(group[i], owner_column(group, global)),
{
}

/// A file without groups is written as one line feed.
pub proof fn lemma_format_nothing()
    ensures
        format_of(Seq::empty()) == seq!['\n'],
{
    let none: Seq<Seq<LineView>> = seq![];
    assert(file_texts(none, global_column(none)) == Seq::<Seq<char>>::empty());
    assert(unlines(Seq::empty()) == Seq::<char>::empty());
    assert(Seq::<char>::empty().push('\n') == seq!['\n']);
}

} // verus!
