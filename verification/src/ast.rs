//! AST representation of a CODEOWNERS file, and the parser that builds it.
//!
//! The file is modeled as a sequence of groups separated by blank lines. Each group
//! contains lines, which can be comments or rules. Comments preserve their exact text.
//! Rules have a pattern and one or more owners, plus an optional inline comment.
use vstd::prelude::*;

use crate::text::{
    chars_of, lines, next_blank, next_nonblank, string_of, trimmed_end, trimmed_start, without_returns,
};

verus! {

use crate::text::{
    blank, is_blank, lemma_span, lines_of, nonblank, span, strings_view, strip_crs, trim_end, trim_start,
};

#[derive(Debug, Clone, PartialEq)]
pub struct File {
    /// Groups of lines, separated by blank lines in the source.
    pub groups: Vec<Group>,
}

#[derive(Debug, Clone, PartialEq)]
pub struct Group {
    pub lines: Vec<Line>,
}

#[derive(Debug, Clone, PartialEq)]
pub enum Line {
    Comment(Comment),
    Rule(Rule),
}

#[derive(Debug, Clone, PartialEq)]
pub struct Comment {
    /// The full comment text including the leading `#`.
    pub text: String,
}

#[derive(Debug, Clone, PartialEq)]
pub struct Rule {
    /// The file pattern (e.g., `/src/sentry/api/` or `*.js`).
    pub pattern: String,
    /// One or more owners (e.g., `@org/team` or `user@example.com`).
    pub owners: Vec<String>,
    /// Optional inline comment (including the `#`).
    pub inline_comment: Option<String>,
}

/// What a rule says.
#[verifier::ext_equal]
pub struct RuleView {
    pub pattern: Seq<char>,
    pub owners: Seq<Seq<char>>,
    pub inline_comment: Option<Seq<char>>,
}

/// What a line says.
#[verifier::ext_equal]
pub enum LineView {
    Comment(Seq<char>),
    Rule(RuleView),
}

impl View for Rule {
    type V = RuleView;

    open spec fn view(&self) -> RuleView {
        RuleView {
            pattern: self.pattern@,
            owners: strings_view(self.owners@),
            inline_comment: match self.inline_comment {
                Some(c) => Some(c@),
                None => None,
            },
        }
    }
}

impl View for Line {
    type V = LineView;

    open spec fn view(&self) -> LineView {
        match self {
            Line::Comment(c) => LineView::Comment(c.text@),
            Line::Rule(r) => LineView::Rule(r@),
        }
    }
}

/// The views of the lines `ls`.
pub open spec fn lines_view(ls: Seq<Line>) -> Seq<LineView> {
    Seq::new(ls.len(), |i: int| ls[i]@)
}

impl View for Group {
    type V = Seq<LineView>;

    open spec fn view(&self) -> Seq<LineView> {
        lines_view(self.lines@)
    }
}

/// The views of the groups `gs`.
pub open spec fn groups_view(gs: Seq<Group>) -> Seq<Seq<LineView>> {
    Seq::new(gs.len(), |i: int| gs[i]@)
}

impl View for File {
    type V = Seq<Seq<LineView>>;

    open spec fn view(&self) -> Seq<Seq<LineView>> {
        groups_view(self.groups@)
    }
}

/// What follows the pattern of a rule: owners separated by spaces and tabs, up to the
/// end or to a `#` that starts a word, from which on all is an inline comment.
pub open spec fn owners_and_comment(s: Seq<char>) -> (Seq<Seq<char>>, Option<Seq<char>>)
    decreases s.len(),
{
    let t = s.skip(span(s, nonblank()));
    proof {
        lemma_span(s, nonblank());
        lemma_span(t, blank());
    }
    if t.len() == 0 {
        (seq![], None)
    } else if t[0] == '#' {
        (seq![], Some(t))
    } else {
        let k = span(t, blank());
        if k <= 0 {
            (seq![], None)
        } else {
            let (owners, comment) = owners_and_comment(t.skip(k));
            (seq![t.take(k)] + owners, comment)
        }
    }
}

/// The rule that a line spells: its first word is the pattern.
pub open spec fn rule_of(line: Seq<char>) -> RuleView {
    let t = line.skip(span(line, nonblank()));
    let k = span(t, blank());
    let (owners, inline_comment) = owners_and_comment(t.skip(k));
    RuleView { pattern: t.take(k), owners, inline_comment }
}

/// The rule that a line of a file spells. White space at its end belongs to an inline
/// comment, if there is one, and to nothing otherwise.
pub open spec fn rule_of_line(s: Seq<char>) -> RuleView {
    if rule_of(s).inline_comment is Some {
        rule_of(s)
    } else {
        rule_of(trim_end(s))
    }
}

/// What a line of the source is, white space at its start and carriage returns at its end
/// aside: nothing if it is blank, a comment if it starts with `#`, and a rule otherwise.
pub open spec fn line_of(raw: Seq<char>) -> Option<LineView> {
    let s = strip_crs(trim_start(raw));
    if s.len() == 0 {
        None
    } else if s[0] == '#' {
        Some(LineView::Comment(s))
    } else {
        Some(LineView::Rule(rule_of_line(s)))
    }
}

/// The groups that are complete after the source lines `raw`, and the group that the
/// next line would continue.
pub open spec fn grouped(raw: Seq<Seq<char>>) -> (Seq<Seq<LineView>>, Seq<LineView>)
    decreases raw.len(),
{
    if raw.len() == 0 {
        (seq![], seq![])
    } else {
        let (done, open) = grouped(raw.drop_last());
        match line_of(raw.last()) {
            Some(line) => (done, open.push(line)),
            None => (close_group(done, open), seq![]),
        }
    }
}

/// `done` followed by the group `open`, unless that is empty.
pub open spec fn close_group(done: Seq<Seq<LineView>>, open: Seq<LineView>) -> Seq<Seq<LineView>> {
    if open.len() == 0 {
        done
    } else {
        done.push(open)
    }
}

/// The groups that the source lines `raw` form.
pub open spec fn groups_of(raw: Seq<Seq<char>>) -> Seq<Seq<LineView>> {
    let (done, open) = grouped(raw);
    close_group(done, open)
}

/// The file that a text spells.
pub open spec fn file_of(text: Seq<char>) -> Seq<Seq<LineView>> {
    groups_of(lines_of(text))
}

/// Parse a CODEOWNERS file into an AST.
pub fn parse(input: &str) -> (file: File)
    ensures
        file@ == file_of(input@),
{
    let raw: Vec<String> = lines(input);
    let ghost raws = strings_view(raw@);
    let mut groups: Vec<Group> = Vec::new();
    let mut current_lines: Vec<Line> = Vec::new();
    assert(groups_view(groups@) == Seq::<Seq<LineView>>::empty());
    assert(lines_view(current_lines@) == Seq::<LineView>::empty());

    for i in 0..raw.len()
        invariant
            raws == strings_view(raw@),
            (groups_view(groups@), lines_view(current_lines@)) == grouped(raws.take(i as int)),
    {
        let ghost done = groups_view(groups@);
        let ghost open = lines_view(current_lines@);
        proof {
            assert(raws.take(i + 1).drop_last() == raws.take(i as int));
            assert(raws.take(i + 1).last() == raw@[i as int]@);
        }
        let cs: Vec<char> = chars_of(raw[i].as_str());
        let line_text: &[char] = without_returns(trimmed_start(cs.as_slice()));
        if line_text.len() == 0 {
            // Blank line: flush the current group if it has content.
            if current_lines.len() > 0 {
                groups.push(Group { lines: current_lines });
                current_lines = Vec::new();
                assert(groups_view(groups@) == done.push(open));
            }
            assert(lines_view(current_lines@) == Seq::<LineView>::empty());
        } else if line_text[0] == '#' {
            let line: Line = Line::Comment(Comment { text: string_of(line_text) });
            current_lines.push(line);
            assert(lines_view(current_lines@) == open.push(line@));
        } else {
            // It's a rule line: pattern followed by owners, with optional inline comment.
            let line: Line = Line::Rule(parse_rule_line(line_text));
            current_lines.push(line);
            assert(lines_view(current_lines@) == open.push(line@));
        }
    }
    assert(raws.take(raws.len() as int) == raws);

    // Flush any remaining lines.
    let ghost done = groups_view(groups@);
    let ghost open = lines_view(current_lines@);
    if current_lines.len() > 0 {
        groups.push(Group { lines: current_lines });
        assert(groups_view(groups@) == done.push(open));
    }
    File { groups }
}

/// Parse a line that holds a rule. Only an inline comment keeps white space at its end.
fn parse_rule_line(cs: &[char]) -> (rule: Rule)
    ensures
        rule@ == rule_of_line(cs@),
{
    let rule: Rule = parse_rule_chars(cs);
    if rule.inline_comment.is_some() {
        return rule;
    }
    parse_rule_chars(trimmed_end(cs))
}

/// Parse one rule: a pattern followed by owners, with an optional inline comment.
///
/// Since `#` cannot be escaped in patterns, any `#` that starts a word after the
/// first one begins an inline comment.
pub fn parse_rule(line: &str) -> (rule: Rule)
    ensures
        rule@ == rule_of(line@),
{
    let cs: Vec<char> = chars_of(line);
    parse_rule_chars(cs.as_slice())
}

fn parse_rule_chars(cs: &[char]) -> (rule: Rule)
    ensures
        rule@ == rule_of(cs@),
{
    let start: usize = next_nonblank(cs, 0);
    let end: usize = next_blank(cs, start);
    let pattern: String = string_of(vstd::slice::slice_subrange(cs, start, end));
    let mut owners: Vec<String> = Vec::new();
    let mut inline_comment: Option<String> = None;
    let mut pos: usize = end;
    let ghost expected = owners_and_comment(cs@.skip(end as int));
    proof {
        assert(cs@.skip(0) == cs@);
        assert(cs@.skip(start as int).take(end - start) == cs@.subrange(start as int, end as int));
        assert(cs@.skip(start as int).skip(end - start) == cs@.skip(end as int));
        assert(strings_view(owners@) == Seq::<Seq<char>>::empty());
    }

    loop
        invariant_except_break
            inline_comment is None,
            ({
                let (rest, comment) = owners_and_comment(cs@.skip(pos as int));
                expected == (strings_view(owners@) + rest, comment)
            }),
        invariant
            pos <= cs@.len(),
        ensures
            expected == (
                strings_view(owners@),
                match inline_comment {
                    Some(c) => Some(c@),
                    None => None,
                },
            ),
        decreases cs@.len() - pos,
    {
        let ghost rest = cs@.skip(pos as int);
        let word: usize = next_nonblank(cs, pos);
        let ghost t = cs@.skip(word as int);
        assert(rest.skip(word - pos) == t);
        if word == cs.len() {
            assert(strings_view(owners@) + Seq::<Seq<char>>::empty() == strings_view(owners@));
            break;
        }
        if cs[word] == '#' {
            let comment: String = string_of(vstd::slice::slice_subrange(cs, word, cs.len()));
            assert(comment@ == t);
            assert(strings_view(owners@) + Seq::<Seq<char>>::empty() == strings_view(owners@));
            inline_comment = Some(comment);
            break;
        }
        let stop: usize = next_blank(cs, word);
        proof {
            lemma_span(rest, nonblank());
            assert(!is_blank(t[0]));
            lemma_span(t, blank());
            assert(stop > word);
            assert(t.skip(stop - word) == cs@.skip(stop as int));
        }
        let owner: String = string_of(vstd::slice::slice_subrange(cs, word, stop));
        let ghost before = strings_view(owners@);
        owners.push(owner);
        proof {
            assert(owner@ == t.take(stop - word));
            assert(strings_view(owners@) == before.push(owner@));
            let (more, _) = owners_and_comment(cs@.skip(stop as int));
            assert(before.push(owner@) + more == before + (seq![owner@] + more));
        }
        pos = stop;
    }
    Rule { pattern, owners, inline_comment }
}

} // verus!
