//! Which line of the source each rule stands on.
use vstd::prelude::*;

use crate::text::{chars_of, lines, trimmed_start, without_returns};

verus! {

use crate::ast::{close_group, file_of, grouped, line_of, LineView, RuleView};
use crate::matcher::{rules_of, rules_of_lines};
use crate::text::{lines_of, strings_view};

/// The numbers, counted from 1, of the lines that hold rules.
pub open spec fn rule_lines(raw: Seq<Seq<char>>) -> Seq<usize>
    decreases raw.len(),
{
    if raw.len() == 0 {
        seq![]
    } else {
        let before = rule_lines(raw.drop_last());
        if is_rule_line(raw.last()) {
            before.push(raw.len() as usize)
        } else {
            before
        }
    }
}

/// The line holds a rule.
pub open spec fn is_rule_line(raw: Seq<char>) -> bool {
    line_of(raw) matches Some(LineView::Rule(_))
}

/// The numbers, counted from 1, of the lines that hold rules.
pub fn rule_line_numbers(input: &str) -> (r: Vec<usize>)
    ensures
        r@ == rule_lines(lines_of(input@)),
        r@.len() == rules_of(file_of(input@)).len(),
{
    let raw: Vec<String> = lines(input);
    let ghost raws = strings_view(raw@);
    let mut r: Vec<usize> = Vec::new();
    for i in 0..raw.len()
        invariant
            raws == strings_view(raw@),
            r@ == rule_lines(raws.take(i as int)),
    {
        assert(raws.take(i + 1).drop_last() == raws.take(i as int));
        assert(raws.take(i + 1).last() == raw@[i as int]@);
        let cs: Vec<char> = chars_of(raw[i].as_str());
        let line_text: &[char] = without_returns(trimmed_start(cs.as_slice()));
        if line_text.len() > 0 && line_text[0] != '#' {
            r.push(i + 1);
        }
    }
    assert(raws.take(raws.len() as int) == raws);
    proof {
        assert(raw.len() == raws.len());
        lemma_numbered(raws);
    }
    r
}

/// The rules on the lines `raw`, whatever their groups.
spec fn rules_on(raw: Seq<Seq<char>>) -> Seq<RuleView>
    decreases raw.len(),
{
    if raw.len() == 0 {
        seq![]
    } else {
        let before = rules_on(raw.drop_last());
        match line_of(raw.last()) {
            Some(LineView::Rule(rule)) => before.push(rule),
            _ => before,
        }
    }
}

proof fn lemma_close(done: Seq<Seq<LineView>>, open: Seq<LineView>)
    ensures
        rules_of(close_group(done, open)) == rules_of(done) + rules_of_lines(open),
{
    if open.len() == 0 {
        assert(rules_of_lines(open) == Seq::<RuleView>::empty());
        assert(rules_of(done) + rules_of_lines(open) == rules_of(done));
    } else {
        assert(done.push(open).drop_last() == done);
    }
}

proof fn lemma_grouped_rules(raw: Seq<Seq<char>>)
    ensures
        rules_of(grouped(raw).0) + rules_of_lines(grouped(raw).1) == rules_on(raw),
    decreases raw.len(),
{
    let (done, open) = grouped(raw);
    if raw.len() == 0 {
        assert(rules_of(done) + rules_of_lines(open) == rules_on(raw));
    } else {
        let (done0, open0) = grouped(raw.drop_last());
        lemma_grouped_rules(raw.drop_last());
        match line_of(raw.last()) {
            Some(line) => {
                assert(open0.push(line).drop_last() == open0);
                assert(rules_of(done) + rules_of_lines(open) == rules_on(raw));
            },
            None => {
                lemma_close(done0, open0);
                assert(rules_of_lines(open) == Seq::<RuleView>::empty());
                assert(rules_of(done) + rules_of_lines(open) == rules_on(raw));
            },
        }
    }
}

proof fn lemma_rules_on(raw: Seq<Seq<char>>)
    requires
        raw.len() <= usize::MAX,
    ensures
        rule_lines(raw).len() == rules_on(raw).len(),
        forall|p: int| #![trigger rule_lines(raw)[p]]
            0 <= p < rule_lines(raw).len() ==> 0 < rule_lines(raw)[p] <= raw.len() && line_of(
                raw[rule_lines(raw)[p] - 1],
            ) == Some(LineView::Rule(rules_on(raw)[p])),
    decreases raw.len(),
{
    if raw.len() > 0 {
        let front = raw.drop_last();
        lemma_rules_on(front);
        assert forall|p: int| #![trigger rule_lines(raw)[p]] 0 <= p < rule_lines(raw).len()
            implies 0 < rule_lines(raw)[p] <= raw.len()
            && line_of(raw[rule_lines(raw)[p] - 1]) == Some(LineView::Rule(rules_on(raw)[p])) by {
            if p < rule_lines(front).len() {
                assert(rule_lines(front)[p] == rule_lines(raw)[p]);
                assert(front[rule_lines(front)[p] - 1] == raw[rule_lines(front)[p] - 1]);
            }
        }
    }
}

proof fn lemma_numbered(raw: Seq<Seq<char>>)
    requires
        raw.len() <= usize::MAX,
    ensures
        rule_lines(raw).len() == rules_of(crate::ast::groups_of(raw)).len(),
{
    let (done, open) = grouped(raw);
    lemma_close(done, open);
    lemma_grouped_rules(raw);
    lemma_rules_on(raw);
}

/// Each rule of a file has a line number, and that line of the source spells the rule.
pub proof fn lemma_rule_lines(text: Seq<char>, p: int)
    requires
        lines_of(text).len() <= usize::MAX,
        0 <= p < rules_of(file_of(text)).len(),
    ensures
        p < rule_lines(lines_of(text)).len(),
        0 < rule_lines(lines_of(text))[p] <= lines_of(text).len(),
        line_of(lines_of(text)[rule_lines(lines_of(text))[p] - 1]) == Some(
            LineView::Rule(rules_of(file_of(text))[p]),
        ),
{
    let raw = lines_of(text);
    let (done, open) = grouped(raw);
    lemma_close(done, open);
    lemma_grouped_rules(raw);
    lemma_rules_on(raw);
}

} // verus!
