//! How a text reads: what makes no difference to it (how the lines end, blank lines at the
//! start, the groups before and after), and that comments are preserved.
use vstd::prelude::*;

use crate::ast::{File, Line, Rule};

verus! {

use crate::ast::{
    file_of, grouped, groups_of, line_of, owners_and_comment, rule_of, LineView, RuleView,
};
use crate::roundtrip::{lemma_final_newline, lemma_line_strip_cr};
use crate::text::{
    blank, is_blank, is_whitespace, lemma_span, lemma_span_is, lines_of, newline, nonblank, span,
    strip_cr, strip_crs, trim_end, trim_start,
};

/// The lines of a text are those up to a line feed, and then those of the rest.
proof fn lemma_lines_concat(a: Seq<char>, b: Seq<char>)
    ensures
        lines_of(a.push('\n') + b) == lines_of(a.push('\n')) + lines_of(b),
    decreases a.len(),
{
    let s = a.push('\n') + b;
    let t = a.push('\n');
    let k = span(a, newline());
    lemma_span(a, newline());
    assert forall|i: int| 0 <= i < k implies !newline()(#[trigger] s[i]) && !newline()(t[i]) by {
        assert(s[i] == a[i] && t[i] == a[i]);
    }
    assert forall|i: int| 0 <= i < k implies !newline()(#[trigger] t[i]) by {
        assert(t[i] == a[i]);
    }
    assert(newline()(s[k]));
    assert(newline()(t[k]));
    lemma_span_is(s, newline(), k);
    lemma_span_is(t, newline(), k);
    assert(s.take(k) == t.take(k));
    let first = seq![strip_cr(t.take(k))];
    if k >= a.len() {
        assert(s.skip(k + 1) == b);
        assert(t.skip(k + 1) == Seq::<char>::empty());
        assert(lines_of(t.skip(k + 1)) == Seq::<Seq<char>>::empty());
        assert(lines_of(t) == first + lines_of(t.skip(k + 1)));
        assert(lines_of(t) == first);
    } else {
        let rest = a.skip(k + 1);
        lemma_lines_concat(rest, b);
        assert(s.skip(k + 1) == rest.push('\n') + b);
        assert(t.skip(k + 1) == rest.push('\n'));
        let m = lines_of(rest.push('\n'));
        assert(first + (m + lines_of(b)) == (first + m) + lines_of(b));
    }
}

/// After a blank line the groups start anew.
proof fn lemma_grouped_concat(x: Seq<Seq<char>>, y: Seq<Seq<char>>)
    requires
        grouped(x).1.len() == 0,
    ensures
        grouped(x + y) == (grouped(x).0 + grouped(y).0, grouped(y).1),
    decreases y.len(),
{
    if y.len() == 0 {
        assert(x + y == x);
        assert(grouped(x).0 + grouped(y).0 == grouped(x).0);
        assert(grouped(x).1 == grouped(y).1);
    } else {
        let front = y.drop_last();
        lemma_grouped_concat(x, front);
        assert((x + y).drop_last() == x + front);
        assert((x + y).last() == y.last());
        let (done, open) = grouped(front);
        if line_of(y.last()) is None && open.len() > 0 {
            assert((grouped(x).0 + done).push(open) == grouped(x).0 + done.push(open));
        }
    }
}

proof fn lemma_groups_concat(x: Seq<Seq<char>>, y: Seq<Seq<char>>)
    requires
        grouped(x).1.len() == 0,
    ensures
        groups_of(x + y) == grouped(x).0 + groups_of(y),
{
    lemma_grouped_concat(x, y);
    let (done, open) = grouped(y);
    if open.len() > 0 {
        assert((grouped(x).0 + done).push(open) == grouped(x).0 + done.push(open));
    }
}

/// A blank line separates groups that read independently: what stands before it and what
/// stands after it read as they do alone.
pub proof fn lemma_blank_line_separates(a: Seq<char>, b: Seq<char>)
    ensures
        file_of(a + seq!['\n', '\n'] + b) == file_of(a) + file_of(b),
{
    let before = a.push('\n');
    let feed: Seq<char> = seq!['\n'];
    let none: Seq<char> = seq![];
    let blank_line: Seq<char> = seq![];
    assert(a + seq!['\n', '\n'] + b == before.push('\n') + b);
    lemma_lines_concat(before, b);
    lemma_lines_concat(a, feed);
    assert(before + feed == before.push('\n'));
    assert(none.push('\n') == feed);
    lemma_lines_concat(none, none);
    assert(none.push('\n') + none == feed);
    lemma_span_is(feed, newline(), 0);
    assert(feed.take(0) == none);
    assert(feed.skip(1) == none);
    assert(lines_of(none) == Seq::<Seq<char>>::empty());
    assert(lines_of(feed) == seq![blank_line] + lines_of(none));
    assert(lines_of(feed) == seq![blank_line]);
    let x = lines_of(before.push('\n'));
    assert(x == lines_of(before).push(blank_line));
    assert(x.drop_last() == lines_of(before));
    assert(line_of(blank_line) is None);
    assert(grouped(x).0 == groups_of(lines_of(before)));
    lemma_groups_concat(x, lines_of(b));
    lemma_final_newline(a);
}

/// All characters are white space.
pub open spec fn all_whitespace(s: Seq<char>) -> bool {
    forall|i: int| 0 <= i < s.len() ==> is_whitespace(#[trigger] s[i])
}

/// A line of white space says nothing.
pub proof fn lemma_whitespace_line(s: Seq<char>)
    requires
        all_whitespace(s),
    ensures
        line_of(s) is None,
    decreases s.len(),
{
    if s.len() > 0 {
        let rest = s.drop_first();
        assert forall|i: int| 0 <= i < rest.len() implies is_whitespace(#[trigger] rest[i]) by {
            assert(rest[i] == s[i + 1]);
        }
        lemma_whitespace_line(rest);
        assert(is_whitespace(s[0]));
        assert(trim_start(s) == trim_start(rest));
    } else {
        assert(strip_crs(trim_start(s)).len() == 0);
    }
}

proof fn lemma_whitespace_lines(s: Seq<char>)
    requires
        all_whitespace(s),
    ensures
        forall|i: int| 0 <= i < lines_of(s).len() ==> line_of(#[trigger] lines_of(s)[i]) is None,
    decreases s.len(),
{
    if s.len() > 0 {
        let k = span(s, newline());
        lemma_span(s, newline());
        if k >= s.len() {
            lemma_whitespace_line(s);
            assert(lines_of(s) == seq![s]);
        } else {
            let l = s.take(k);
            let rest = s.skip(k + 1);
            assert forall|i: int| 0 <= i < l.len() implies is_whitespace(#[trigger] l[i]) by {
                assert(l[i] == s[i]);
            }
            assert forall|i: int| 0 <= i < rest.len() implies is_whitespace(#[trigger] rest[i]) by {
                assert(rest[i] == s[k + 1 + i]);
            }
            lemma_whitespace_line(l);
            lemma_line_strip_cr(l);
            lemma_whitespace_lines(rest);
            assert(lines_of(s) == seq![strip_cr(l)] + lines_of(rest));
            assert forall|i: int| 0 <= i < lines_of(s).len()
                implies line_of(#[trigger] lines_of(s)[i]) is None by {
                if i > 0 {
                    assert(lines_of(s)[i] == lines_of(rest)[i - 1]);
                }
            }
        }
    }
}

proof fn lemma_blank_groups(raw: Seq<Seq<char>>)
    requires
        forall|i: int| 0 <= i < raw.len() ==> line_of(#[trigger] raw[i]) is None,
    ensures
        grouped(raw).0.len() == 0,
        grouped(raw).1.len() == 0,
    decreases raw.len(),
{
    if raw.len() > 0 {
        let front = raw.drop_last();
        assert forall|i: int| 0 <= i < front.len() implies line_of(#[trigger] front[i]) is None by {
            assert(front[i] == raw[i]);
        }
        lemma_blank_groups(front);
        assert(line_of(raw[raw.len() - 1]) is None);
    }
}

/// Blank lines at the start of a text make no difference.
pub proof fn lemma_leading_blank_lines(lead: Seq<char>, text: Seq<char>)
    requires
        all_whitespace(lead),
        lead.len() > 0 ==> lead.last() == '\n',
    ensures
        file_of(lead + text) == file_of(text),
{
    if lead.len() == 0 {
        assert(lead + text == text);
    } else {
        assert(lead == lead.drop_last().push('\n'));
        lemma_lines_concat(lead.drop_last(), text);
        lemma_whitespace_lines(lead);
        lemma_blank_groups(lines_of(lead));
        lemma_groups_concat(lines_of(lead), lines_of(text));
        assert(grouped(lines_of(lead)).0 + file_of(text) == file_of(text));
    }
}

/// `s` with a carriage return before each line feed.
pub open spec fn crlf(s: Seq<char>) -> Seq<char>
    decreases s.len(),
{
    if s.len() == 0 {
        seq![]
    } else if s[0] == '\n' {
        seq!['\r', '\n'] + crlf(s.drop_first())
    } else {
        seq![s[0]] + crlf(s.drop_first())
    }
}

proof fn lemma_crlf_line(s: Seq<char>, k: int)
    requires
        0 <= k <= s.len(),
        forall|i: int| 0 <= i < k ==> s[i] != '\n',
    ensures
        crlf(s) == s.take(k) + crlf(s.skip(k)),
    decreases k,
{
    if k == 0 {
        assert(s.skip(0) == s);
        assert(s.take(0) + crlf(s) == crlf(s));
    } else {
        let rest = s.drop_first();
        assert forall|i: int| 0 <= i < k - 1 implies rest[i] != '\n' by {
            assert(rest[i] == s[i + 1]);
        }
        lemma_crlf_line(rest, k - 1);
        assert(rest.skip(k - 1) == s.skip(k));
        assert(s[0] != '\n');
        assert(seq![s[0]] + (rest.take(k - 1) + crlf(s.skip(k))) == s.take(k) + crlf(s.skip(k)));
    }
}

/// The lines say the same, one by one.
spec fn same_reading(a: Seq<Seq<char>>, b: Seq<Seq<char>>) -> bool {
    &&& a.len() == b.len()
    &&& forall|i: int| 0 <= i < a.len() ==> line_of(#[trigger] a[i]) == line_of(b[i])
}

proof fn lemma_same_reading(a: Seq<Seq<char>>, b: Seq<Seq<char>>)
    requires
        same_reading(a, b),
    ensures
        grouped(a) == grouped(b),
    decreases a.len(),
{
    if a.len() > 0 {
        let n = a.len() - 1;
        assert forall|i: int| 0 <= i < n
            implies line_of(#[trigger] a.drop_last()[i]) == line_of(b.drop_last()[i]) by {
            assert(a[i] == a.drop_last()[i]);
            assert(b[i] == b.drop_last()[i]);
        }
        lemma_same_reading(a.drop_last(), b.drop_last());
        assert(line_of(a[n]) == line_of(b[n]));
    }
}

proof fn lemma_crlf_lines(s: Seq<char>)
    ensures
        same_reading(lines_of(crlf(s)), lines_of(s)),
    decreases s.len(),
{
    if s.len() > 0 {
        let k = span(s, newline());
        lemma_span(s, newline());
        assert forall|i: int| 0 <= i < k implies s[i] != '\n' by {
            assert(!newline()(s[i]));
        }
        lemma_crlf_line(s, k);
        let l = s.take(k);
        if k >= s.len() {
            assert(s.skip(k) == Seq::<char>::empty());
            assert(crlf(s) == s) by {
                assert(l == s);
                assert(l + crlf(s.skip(k)) == s);
            }
        } else {
            let rest = s.skip(k + 1);
            let t = crlf(s);
            assert(s.skip(k)[0] == '\n');
            assert(s.skip(k).drop_first() == rest);
            assert(t == l + (seq!['\r', '\n'] + crlf(rest)));
            assert forall|i: int| 0 <= i < k + 1 implies !newline()(#[trigger] t[i]) by {
                if i < k {
                    assert(t[i] == s[i]);
                }
            }
            assert(newline()(t[k + 1]));
            lemma_span_is(t, newline(), k + 1);
            assert(t.take(k + 1) == l.push('\r'));
            assert(l.push('\r').drop_last() == l);
            assert(t.skip(k + 2) == crlf(rest));
            assert(lines_of(t) == seq![l] + lines_of(crlf(rest)));
            assert(lines_of(s) == seq![strip_cr(l)] + lines_of(rest));
            lemma_crlf_lines(rest);
            lemma_line_strip_cr(l);
            let a = lines_of(t);
            let b = lines_of(s);
            assert forall|i: int| 0 <= i < a.len() implies line_of(#[trigger] a[i]) == line_of(b[i]) by {
                if i > 0 {
                    assert(a[i] == lines_of(crlf(rest))[i - 1]);
                    assert(b[i] == lines_of(rest)[i - 1]);
                }
            }
        }
    }
}

/// Carriage returns before the line feeds make no difference.
pub proof fn lemma_crlf_reads_the_same(text: Seq<char>)
    ensures
        file_of(crlf(text)) == file_of(text),
{
    lemma_crlf_lines(text);
    lemma_same_reading(lines_of(crlf(text)), lines_of(text));
}

// ---------------------------------------------------------------------------
// Comments
// ---------------------------------------------------------------------------

proof fn lemma_trim_start_skips(lead: Seq<char>, s: Seq<char>)
    requires
        all_whitespace(lead),
        s.len() > 0,
        !is_whitespace(s[0]),
    ensures
        trim_start(lead + s) == s,
    decreases lead.len(),
{
    if lead.len() == 0 {
        assert(lead + s == s);
    } else {
        let rest = lead.drop_first();
        assert forall|i: int| 0 <= i < rest.len() implies is_whitespace(#[trigger] rest[i]) by {
            assert(rest[i] == lead[i + 1]);
        }
        lemma_trim_start_skips(rest, s);
        assert(is_whitespace(lead[0]));
        assert((lead + s).drop_first() == rest + s);
    }
}

/// A comment is preserved exactly as written, from its `#` to the end of the line.
pub proof fn lemma_comment_kept(lead: Seq<char>, comment: Seq<char>)
    requires
        all_whitespace(lead),
        comment.len() > 0,
        comment[0] == '#',
        comment.last() != '\r',
    ensures
        line_of(lead + comment) == Some(LineView::Comment(comment)),
{
    lemma_trim_start_skips(lead, comment);
}

proof fn lemma_tail_comment(s: Seq<char>, comment: Seq<char>)
    requires
        s.len() > 0 ==> is_blank(s.last()),
        owners_and_comment(s).1 is None,
        comment.len() > 0,
        comment[0] == '#',
    ensures
        owners_and_comment(s + comment) == (owners_and_comment(s).0, Some(comment)),
    decreases s.len(),
{
    let all = s + comment;
    let k = span(s, nonblank());
    let t = s.skip(k);
    lemma_span(s, nonblank());
    assert forall|i: int| 0 <= i < k implies !nonblank()(#[trigger] all[i]) by {
        assert(all[i] == s[i]);
    }
    assert(nonblank()(all[k])) by {
        if k < s.len() {
            assert(all[k] == s[k]);
        } else {
            assert(all[k] == comment[0]);
        }
    }
    lemma_span_is(all, nonblank(), k);
    assert(all.skip(k) == t + comment);
    if t.len() == 0 {
        assert(t + comment == comment);
    } else {
        let m = span(t, blank());
        let u = t + comment;
        lemma_span(t, blank());
        assert(t.last() == s.last());
        assert(m < t.len()) by {
            if m >= t.len() {
                assert(!blank()(t[t.len() - 1]));
            }
        }
        assert forall|i: int| 0 <= i < m implies !blank()(#[trigger] u[i]) by {
            assert(u[i] == t[i]);
        }
        assert(u[m] == t[m]);
        lemma_span_is(u, blank(), m);
        assert(u.take(m) == t.take(m));
        assert(u.skip(m) == t.skip(m) + comment);
        assert(t.skip(m).last() == s.last());
        assert(!is_blank(t[0]));
        assert(m > 0);
        lemma_tail_comment(t.skip(m), comment);
    }
}

/// An inline comment is preserved exactly as written, from its `#` to the end of the line,
/// and does not change what is read before it.
pub proof fn lemma_inline_comment_kept(lead: Seq<char>, rule: Seq<char>, comment: Seq<char>)
    requires
        all_whitespace(lead),
        rule.len() > 0,
        !is_whitespace(rule[0]),
        rule[0] != '#',
        is_blank(rule.last()),
        rule_of(rule).inline_comment is None,
        comment.len() > 0,
        comment[0] == '#',
        comment.last() != '\r',
    ensures
        line_of(lead + rule + comment) == Some(
            LineView::Rule(RuleView { inline_comment: Some(comment), ..rule_of(rule) }),
        ),
{
    let s = rule + comment;
    assert(lead + rule + comment == lead + s);
    assert(s[0] == rule[0]);
    lemma_trim_start_skips(lead, s);
    assert(s.last() == comment.last());
    assert(strip_crs(s) == s);
    lemma_span_is(rule, nonblank(), 0);
    lemma_span_is(s, nonblank(), 0);
    assert(rule.skip(0) == rule);
    assert(s.skip(0) == s);
    let k = span(rule, blank());
    lemma_span(rule, blank());
    assert(k < rule.len()) by {
        if k >= rule.len() {
            assert(!blank()(rule[rule.len() - 1]));
        }
    }
    assert forall|i: int| 0 <= i < k implies !blank()(#[trigger] s[i]) by {
        assert(s[i] == rule[i]);
    }
    assert(s[k] == rule[k]);
    lemma_span_is(s, blank(), k);
    assert(s.take(k) == rule.take(k));
    assert(s.skip(k) == rule.skip(k) + comment);
    lemma_tail_comment(rule.skip(k), comment);
}

// ---------------------------------------------------------------------------
// Rules
// ---------------------------------------------------------------------------

/// All characters are spaces and tabs.
pub open spec fn all_blank(s: Seq<char>) -> bool {
    forall|i: int| 0 <= i < s.len() ==> #[trigger] s[i] == ' ' || s[i] == '\t'
}

/// Some characters, and none of them a space or a tab.
pub open spec fn a_word(s: Seq<char>) -> bool {
    s.len() > 0 && forall|i: int| 0 <= i < s.len() ==> #[trigger] s[i] != ' ' && s[i] != '\t'
}

/// The first word of a line is its pattern.
pub proof fn lemma_pattern_read(lead: Seq<char>, word: Seq<char>)
    requires
        all_blank(lead),
        a_word(word),
    ensures
        rule_of(lead + word) == (RuleView { pattern: word, owners: seq![], inline_comment: None }),
        rule_of(lead) == (RuleView { pattern: seq![], owners: seq![], inline_comment: None }),
{
    assert forall|i: int| 0 <= i < lead.len() implies !nonblank()(#[trigger] lead[i]) by {}
    lemma_span_is(lead, nonblank(), lead.len() as int);
    let nothing = lead.skip(lead.len() as int);
    assert(nothing == Seq::<char>::empty());
    assert(nothing.take(0) == nothing);
    assert(nothing.skip(0) == nothing);
    assert(owners_and_comment(nothing).0 == Seq::<Seq<char>>::empty());
    let s = lead + word;
    let n = lead.len() as int;
    assert forall|i: int| 0 <= i < n implies !nonblank()(#[trigger] s[i]) by {
        assert(s[i] == lead[i]);
    }
    assert(s[n] == word[0]);
    lemma_span_is(s, nonblank(), n);
    assert(s.skip(n) == word);
    assert forall|i: int| 0 <= i < word.len() implies !blank()(#[trigger] word[i]) by {}
    lemma_span_is(word, blank(), word.len() as int);
    assert(word.take(word.len() as int) == word);
    let none: Seq<char> = word.skip(word.len() as int);
    assert(none.len() == 0);
    assert(none.skip(span(none, nonblank())).len() == 0);
    assert(owners_and_comment(none).0 == Seq::<Seq<char>>::empty());
}

/// What is left of a line after its pattern.
spec fn after_pattern(s: Seq<char>) -> Seq<char> {
    let t = s.skip(span(s, nonblank()));
    t.skip(span(t, blank()))
}

/// Some character is neither a space nor a tab.
pub open spec fn has_word(s: Seq<char>) -> bool {
    exists|i: int| 0 <= i < s.len() && #[trigger] s[i] != ' ' && s[i] != '\t'
}

/// A line goes on after its pattern as soon as a space or a tab is in between.
proof fn lemma_rule_goes_on(s: Seq<char>, x: Seq<char>)
    requires
        has_word(s),
        x.len() > 0,
        is_blank(x[0]) || is_blank(s.last()),
    ensures
        rule_of(s + x).pattern == rule_of(s).pattern,
        after_pattern(s + x) == after_pattern(s) + x,
        after_pattern(s).len() > 0 ==> after_pattern(s).last() == s.last(),
        after_pattern(s).len() == 0 ==> !is_blank(s.last()),
{
    let all = s + x;
    let k = span(s, nonblank());
    lemma_span(s, nonblank());
    assert(k < s.len()) by {
        let i = choose|i: int| 0 <= i < s.len() && #[trigger] s[i] != ' ' && s[i] != '\t';
        if k >= s.len() {
            assert(!nonblank()(s[i]));
        }
    }
    assert forall|i: int| 0 <= i < k implies !nonblank()(#[trigger] all[i]) by {
        assert(all[i] == s[i]);
    }
    assert(all[k] == s[k]);
    lemma_span_is(all, nonblank(), k);
    let t = s.skip(k);
    let u = t + x;
    assert(all.skip(k) == u);
    let m = span(t, blank());
    lemma_span(t, blank());
    assert(t.last() == s.last());
    assert forall|i: int| 0 <= i < m implies !blank()(#[trigger] u[i]) by {
        assert(u[i] == t[i]);
    }
    if m < t.len() {
        assert(u[m] == t[m]);
        assert(t.skip(m).last() == s.last());
    } else {
        assert(!blank()(t[t.len() - 1]));
        assert(u[m] == x[0]);
    }
    lemma_span_is(u, blank(), m);
    assert(u.take(m) == t.take(m));
    assert(u.skip(m) == t.skip(m) + x);
}

proof fn lemma_tail_blanks(s: Seq<char>, gap: Seq<char>)
    requires
        all_blank(gap),
        owners_and_comment(s).1 is None,
    ensures
        owners_and_comment(s + gap) == owners_and_comment(s),
    decreases s.len(),
{
    let all = s + gap;
    let k = span(s, nonblank());
    let t = s.skip(k);
    lemma_span(s, nonblank());
    if t.len() == 0 {
        assert forall|i: int| 0 <= i < all.len() implies !nonblank()(#[trigger] all[i]) by {
            if i < s.len() {
                assert(all[i] == s[i]);
                assert(!nonblank()(s[i]));
            } else {
                assert(all[i] == gap[i - s.len()]);
            }
        }
        lemma_span_is(all, nonblank(), all.len() as int);
    } else {
        assert forall|i: int| 0 <= i < k implies !nonblank()(#[trigger] all[i]) by {
            assert(all[i] == s[i]);
        }
        assert(all[k] == s[k]);
        lemma_span_is(all, nonblank(), k);
        let u = t + gap;
        assert(all.skip(k) == u);
        let m = span(t, blank());
        lemma_span(t, blank());
        assert(u[0] == t[0]);
        assert(!is_blank(t[0]));
        assert(m > 0);
        assert forall|i: int| 0 <= i < m implies !blank()(#[trigger] u[i]) by {
            assert(u[i] == t[i]);
        }
        if m < u.len() {
            if m < t.len() {
                assert(u[m] == t[m]);
            } else {
                assert(u[m] == gap[0]);
            }
        }
        lemma_span_is(u, blank(), m);
        assert(u.take(m) == t.take(m));
        assert(u.skip(m) == t.skip(m) + gap);
        lemma_tail_blanks(t.skip(m), gap);
    }
}

proof fn lemma_tail_word(s: Seq<char>, word: Seq<char>)
    requires
        s.len() > 0 ==> is_blank(s.last()),
        owners_and_comment(s).1 is None,
        a_word(word),
        word[0] != '#',
    ensures
        owners_and_comment(s + word) == (owners_and_comment(s).0.push(word), None::<Seq<char>>),
    decreases s.len(),
{
    let all = s + word;
    let k = span(s, nonblank());
    let t = s.skip(k);
    lemma_span(s, nonblank());
    assert forall|i: int| 0 <= i < k implies !nonblank()(#[trigger] all[i]) by {
        assert(all[i] == s[i]);
    }
    assert(nonblank()(all[k])) by {
        if k < s.len() {
            assert(all[k] == s[k]);
        } else {
            assert(all[k] == word[0]);
        }
    }
    lemma_span_is(all, nonblank(), k);
    assert(all.skip(k) == t + word);
    let u = t + word;
    if t.len() == 0 {
        assert(u == word);
        assert forall|i: int| 0 <= i < word.len() implies !blank()(#[trigger] word[i]) by {}
        lemma_span_is(word, blank(), word.len() as int);
        assert(word.take(word.len() as int) == word);
        let none = word.skip(word.len() as int);
        assert(none.skip(span(none, nonblank())).len() == 0);
        assert(owners_and_comment(none).0 == Seq::<Seq<char>>::empty());
        assert(seq![word] + Seq::<Seq<char>>::empty() == seq![word]);
        assert(owners_and_comment(s).0 == Seq::<Seq<char>>::empty());
        assert(Seq::<Seq<char>>::empty().push(word) == seq![word]);
    } else {
        let m = span(t, blank());
        lemma_span(t, blank());
        assert(t.last() == s.last());
        assert(m < t.len()) by {
            if m >= t.len() {
                assert(!blank()(t[t.len() - 1]));
            }
        }
        assert forall|i: int| 0 <= i < m implies !blank()(#[trigger] u[i]) by {
            assert(u[i] == t[i]);
        }
        assert(u[m] == t[m]);
        assert(u[0] == t[0]);
        lemma_span_is(u, blank(), m);
        assert(u.take(m) == t.take(m));
        assert(u.skip(m) == t.skip(m) + word);
        assert(t.skip(m).last() == s.last());
        assert(!is_blank(t[0]));
        assert(m > 0);
        lemma_tail_word(t.skip(m), word);
        let more = owners_and_comment(t.skip(m)).0;
        assert((seq![t.take(m)] + more).push(word) == seq![t.take(m)] + more.push(word));
    }
}

/// A word that follows the pattern after spaces and tabs is one more owner, unless it starts
/// with `#`; then all that follows is the inline comment. Spaces and tabs at the end say
/// nothing.
pub proof fn lemma_rule_read(rule: Seq<char>, gap: Seq<char>, word: Seq<char>, comment: Seq<char>)
    requires
        has_word(rule),
        rule_of(rule).inline_comment is None,
        gap.len() > 0,
        all_blank(gap),
        a_word(word),
        word[0] != '#',
        comment.len() > 0,
        comment[0] == '#',
    ensures
        rule_of(rule + gap) == rule_of(rule),
        rule_of(rule + gap + word) == (RuleView { owners: rule_of(rule).owners.push(word), ..rule_of(rule) }),
        rule_of(rule + gap + comment) == (RuleView { inline_comment: Some(comment), ..rule_of(rule) }),
{
    let s = rule + gap;
    let rest = after_pattern(rule);
    assert(is_blank(gap[0]));
    lemma_rule_goes_on(rule, gap);
    lemma_tail_blanks(rest, gap);
    assert(has_word(s)) by {
        let i = choose|i: int| 0 <= i < rule.len() && #[trigger] rule[i] != ' ' && rule[i] != '\t';
        assert(s[i] == rule[i]);
    }
    assert(s.last() == gap.last());
    assert(is_blank(gap[gap.len() - 1]));
    lemma_rule_goes_on(s, word);
    lemma_rule_goes_on(s, comment);
    lemma_tail_word(after_pattern(s), word);
    lemma_tail_comment(after_pattern(s), comment);
}

proof fn lemma_no_hash(y: Seq<char>)
    requires
        !y.contains('#'),
    ensures
        owners_and_comment(y).1 is None,
    decreases y.len(),
{
    let k = span(y, nonblank());
    let t = y.skip(k);
    lemma_span(y, nonblank());
    if t.len() > 0 {
        assert(t[0] == y[k]);
        assert(y.contains(y[k]));
        let m = span(t, blank());
        lemma_span(t, blank());
        assert(!is_blank(t[0]));
        assert(m > 0);
        let rest = t.skip(m);
        if rest.contains('#') {
            let i = choose|i: int| 0 <= i < rest.len() && rest[i] == '#';
            assert(y[k + m + i] == '#');
        }
        lemma_no_hash(rest);
    }
}

proof fn lemma_no_new_comment(s: Seq<char>, x: Seq<char>)
    requires
        owners_and_comment(s).1 is None,
        !x.contains('#'),
    ensures
        owners_and_comment(s + x).1 is None,
    decreases s.len(),
{
    let all = s + x;
    let k = span(s, nonblank());
    let t = s.skip(k);
    lemma_span(s, nonblank());
    if t.len() == 0 {
        if all.contains('#') {
            let i = choose|i: int| 0 <= i < all.len() && all[i] == '#';
            if i < s.len() {
                assert(!nonblank()(s[i]));
            } else {
                assert(x[i - s.len()] == '#');
            }
        }
        lemma_no_hash(all);
    } else {
        assert forall|i: int| 0 <= i < k implies !nonblank()(#[trigger] all[i]) by {
            assert(all[i] == s[i]);
        }
        assert(all[k] == s[k]);
        lemma_span_is(all, nonblank(), k);
        let u = t + x;
        assert(all.skip(k) == u);
        assert(u[0] == t[0]);
        let m = span(t, blank());
        lemma_span(t, blank());
        lemma_span(u, blank());
        let n = span(u, blank());
        assert(!is_blank(t[0]));
        assert(m > 0);
        if m < t.len() {
            assert forall|i: int| 0 <= i < m implies !blank()(#[trigger] u[i]) by {
                assert(u[i] == t[i]);
            }
            assert(u[m] == t[m]);
            lemma_span_is(u, blank(), m);
            assert(u.skip(m) == t.skip(m) + x);
            lemma_no_new_comment(t.skip(m), x);
        } else {
            assert(n >= m) by {
                if n < m {
                    assert(u[n] == t[n]);
                    assert(!blank()(t[n]));
                }
            }
            let rest = u.skip(n);
            if rest.contains('#') {
                let i = choose|i: int| 0 <= i < rest.len() && rest[i] == '#';
                assert(rest[i] == x[n + i - t.len()]);
            }
            lemma_no_hash(rest);
        }
    }
}

proof fn lemma_rule_no_new_comment(s: Seq<char>, x: Seq<char>)
    requires
        s.len() > 0,
        !is_blank(s[0]),
        rule_of(s).inline_comment is None,
        !x.contains('#'),
    ensures
        rule_of(s + x).inline_comment is None,
{
    let all = s + x;
    lemma_span_is(s, nonblank(), 0);
    assert(all[0] == s[0]);
    lemma_span_is(all, nonblank(), 0);
    assert(s.skip(0) == s && all.skip(0) == all);
    let m = span(s, blank());
    let n = span(all, blank());
    lemma_span(s, blank());
    lemma_span(all, blank());
    if m < s.len() {
        assert forall|i: int| 0 <= i < m implies !blank()(#[trigger] all[i]) by {
            assert(all[i] == s[i]);
        }
        assert(all[m] == s[m]);
        lemma_span_is(all, blank(), m);
        assert(all.skip(m) == s.skip(m) + x);
        lemma_no_new_comment(s.skip(m), x);
    } else {
        assert(n >= m) by {
            if n < m {
                assert(all[n] == s[n]);
                assert(!blank()(s[n]));
            }
        }
        let rest = all.skip(n);
        if rest.contains('#') {
            let i = choose|i: int| 0 <= i < rest.len() && rest[i] == '#';
            assert(rest[i] == x[n + i - s.len()]);
        }
        lemma_no_hash(rest);
    }
}

proof fn lemma_strip_into(s: Seq<char>, trail: Seq<char>) -> (kept: Seq<char>)
    requires
        s.len() > 0,
        s.last() != '\r',
        all_whitespace(trail),
    ensures
        strip_crs(s + trail) == s + kept,
        all_whitespace(kept),
    decreases trail.len(),
{
    if trail.len() > 0 && trail.last() == '\r' {
        let front = trail.drop_last();
        assert forall|i: int| 0 <= i < front.len() implies is_whitespace(#[trigger] front[i]) by {
            assert(front[i] == trail[i]);
        }
        assert((s + trail).drop_last() == s + front);
        assert((s + trail).last() == trail.last());
        lemma_strip_into(s, front)
    } else {
        if trail.len() == 0 {
            assert(s + trail == s);
        } else {
            assert((s + trail).last() == trail.last());
        }
        trail
    }
}

proof fn lemma_trim_into(s: Seq<char>, trail: Seq<char>)
    requires
        s.len() > 0,
        !is_whitespace(s.last()),
        all_whitespace(trail),
    ensures
        trim_end(s + trail) == s,
    decreases trail.len(),
{
    if trail.len() == 0 {
        assert(s + trail == s);
    } else {
        let front = trail.drop_last();
        assert forall|i: int| 0 <= i < front.len() implies is_whitespace(#[trigger] front[i]) by {
            assert(front[i] == trail[i]);
        }
        assert(is_whitespace(trail[trail.len() - 1]));
        assert((s + trail).drop_last() == s + front);
        lemma_trim_into(s, front);
    }
}

/// White space around a rule without an inline comment says nothing.
pub proof fn lemma_rule_line_read(lead: Seq<char>, rule: Seq<char>, trail: Seq<char>)
    requires
        all_whitespace(lead),
        all_whitespace(trail),
        rule.len() > 0,
        !is_whitespace(rule[0]),
        !is_whitespace(rule.last()),
        rule[0] != '#',
        rule_of(rule).inline_comment is None,
    ensures
        line_of(lead + rule + trail) == Some(LineView::Rule(rule_of(rule))),
{
    let s = rule + trail;
    assert(lead + rule + trail == lead + s);
    assert(s[0] == rule[0]);
    lemma_trim_start_skips(lead, s);
    let kept = lemma_strip_into(rule, trail);
    if kept.contains('#') {
        let i = choose|i: int| 0 <= i < kept.len() && kept[i] == '#';
        assert(is_whitespace(kept[i]));
    }
    lemma_rule_no_new_comment(rule, kept);
    lemma_trim_into(rule, kept);
    assert((rule + kept)[0] == rule[0]);
}

/// Carriage returns at the end of a line say nothing.
pub proof fn lemma_carriage_return(raw: Seq<char>)
    ensures
        line_of(raw + seq!['\r']) == line_of(raw),
{
    let s = raw + seq!['\r'];
    lemma_line_strip_cr(s);
    assert(s.drop_last() == raw);
}

/// Lines that are not blank form one group, in which they stand in order.
pub proof fn lemma_lines_form_a_group(raw: Seq<Seq<char>>)
    requires
        raw.len() > 0,
        forall|i: int| 0 <= i < raw.len() ==> line_of(#[trigger] raw[i]) is Some,
    ensures
        groups_of(raw) == seq![Seq::new(raw.len(), |i: int| line_of(raw[i])->0)],
{
    lemma_open_group(raw);
    assert(Seq::<Seq<LineView>>::empty().push(grouped(raw).1) == seq![grouped(raw).1]);
}

proof fn lemma_open_group(raw: Seq<Seq<char>>)
    requires
        forall|i: int| 0 <= i < raw.len() ==> line_of(#[trigger] raw[i]) is Some,
    ensures
        grouped(raw) == (Seq::<Seq<LineView>>::empty(), Seq::new(raw.len(), |i: int| line_of(raw[i])->0)),
    decreases raw.len(),
{
    let all = Seq::new(raw.len(), |i: int| line_of(raw[i])->0);
    if raw.len() > 0 {
        let front = raw.drop_last();
        assert forall|i: int| 0 <= i < front.len() implies line_of(#[trigger] front[i]) is Some by {
            assert(front[i] == raw[i]);
        }
        lemma_open_group(front);
        assert(line_of(raw[raw.len() - 1]) is Some);
        assert(Seq::new(front.len(), |i: int| line_of(front[i])->0).push(all.last()) == all);
    } else {
        assert(all == Seq::<LineView>::empty());
    }
}

/// A text spells what its lines spell, and a blank line separates the groups before it from
/// those after it.
pub proof fn lemma_file_read(text: Seq<char>, x: Seq<Seq<char>>, blank_line: Seq<char>, y: Seq<Seq<char>>)
    requires
        line_of(blank_line) is None,
    ensures
        file_of(text) == groups_of(lines_of(text)),
        groups_of(x + seq![blank_line] + y) == groups_of(x) + groups_of(y),
        groups_of(Seq::empty()) == Seq::<Seq<LineView>>::empty(),
{
    let z = x + seq![blank_line];
    assert(z.drop_last() == x);
    assert(z.last() == blank_line);
    lemma_groups_concat(z, y);
}

/// The views of a file and its parts say all that they hold.
pub proof fn lemma_views(file: File, g: int, i: int, rule: Rule)
    ensures
        file@.len() == file.groups@.len(),
        0 <= g < file.groups@.len() ==> file@[g].len() == file.groups@[g].lines@.len(),
        0 <= g < file.groups@.len() && 0 <= i < file.groups@[g].lines@.len() ==> file@[g][i]
            == match file.groups@[g].lines@[i] {
            Line::Comment(c) => LineView::Comment(c.text@),
            Line::Rule(r) => LineView::Rule(r@),
        },
        rule@.pattern == rule.pattern@,
        rule@.owners.len() == rule.owners@.len(),
        0 <= i < rule.owners@.len() ==> rule@.owners[i] == rule.owners@[i]@,
        rule@.inline_comment is Some <==> rule.inline_comment is Some,
        rule.inline_comment matches Some(c) ==> rule@.inline_comment == Some(c@),
{
}

} // verus!
