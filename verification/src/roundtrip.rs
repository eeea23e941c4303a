//! What parsing and formatting promise together: a formatted file reads back as the
//! file that was formatted, so that formatting a second time changes nothing.
use vstd::prelude::*;

verus! {

use crate::ast::{file_of, grouped, line_of, owners_and_comment, rule_of, LineView, RuleView};
use crate::formatter::{
    ensure_newline, file_texts, format_of, global_column, group_texts, lemma_unlines_concat,
    line_text, owner_column, padding, rule_text, spaces, byte_len,
};
use crate::text::{
    blank, is_blank, is_whitespace, join_words, lemma_span, lemma_span_is, lines_of, newline,
    nonblank, span, strip_cr, strip_crs, trim_end, trim_start, unlines,
};

/// Within one line.
pub open spec fn one_line(s: Seq<char>) -> bool {
    !s.contains('\n')
}

/// A word of a rule: it has characters, and none of them separates words or lines.
pub open spec fn is_word(w: Seq<char>) -> bool {
    &&& w.len() > 0
    &&& one_line(w)
    &&& forall|i: int| 0 <= i < w.len() ==> !is_blank(#[trigger] w[i])
}

/// The text of a comment as a line can hold it.
pub open spec fn is_comment(c: Seq<char>) -> bool {
    &&& c.len() > 0
    &&& c[0] == '#'
    &&& one_line(c)
    &&& c.last() != '\r'
}

/// An owner: a word that does not start a comment.
pub open spec fn is_owner(w: Seq<char>) -> bool {
    is_word(w) && w[0] != '#'
}

/// Owners and an inline comment as a line can hold them.
pub open spec fn well_formed_tail(owners: Seq<Seq<char>>, comment: Option<Seq<char>>) -> bool {
    &&& forall|i: int| 0 <= i < owners.len() ==> is_owner(#[trigger] owners[i])
    &&& comment matches Some(c) ==> is_comment(c)
    &&& comment is None && owners.len() > 0 ==> !is_whitespace(owners.last().last())
}

/// A rule as a line can hold it.
pub open spec fn well_formed_rule(r: RuleView) -> bool {
    &&& is_owner(r.pattern)
    &&& !is_whitespace(r.pattern[0])
    &&& well_formed_tail(r.owners, r.inline_comment)
    &&& r.inline_comment is None && r.owners.len() == 0 ==> !is_whitespace(r.pattern.last())
}

/// A line as a file can hold it.
pub open spec fn well_formed_line(line: LineView) -> bool {
    match line {
        LineView::Comment(c) => is_comment(c),
        LineView::Rule(r) => well_formed_rule(r),
    }
}

/// A group as a file can hold it.
pub open spec fn well_formed_group(group: Seq<LineView>) -> bool {
    &&& group.len() > 0
    &&& forall|i: int| 0 <= i < group.len() ==> well_formed_line(#[trigger] group[i])
}

/// A file that some text spells.
pub open spec fn well_formed(groups: Seq<Seq<LineView>>) -> bool {
    forall|i: int| 0 <= i < groups.len() ==> well_formed_group(#[trigger] groups[i])
}

// ---------------------------------------------------------------------------
// Lines
// ---------------------------------------------------------------------------

/// A line that reads back as itself.
pub open spec fn clean_line(l: Seq<char>) -> bool {
    one_line(l) && !(l.len() > 0 && l.last() == '\r')
}

proof fn lemma_lines_front(l: Seq<char>, rest: Seq<char>)
    requires
        clean_line(l),
    ensures
        lines_of(l.push('\n') + rest) == seq![l] + lines_of(rest),
{
    let s = l.push('\n') + rest;
    let k = l.len() as int;
    assert forall|i: int| 0 <= i < k implies !newline()(#[trigger] s[i]) by {
        assert(s[i] == l[i]);
        assert(l.contains(l[i]));
    }
    assert(newline()(s[k]));
    lemma_span_is(s, newline(), k);
    assert(s.take(k) == l);
    assert(s.skip(k + 1) == rest);
}

proof fn lemma_lines_of_unlines(ls: Seq<Seq<char>>)
    requires
        forall|i: int| 0 <= i < ls.len() ==> clean_line(#[trigger] ls[i]),
    ensures
        lines_of(unlines(ls)) == ls,
    decreases ls.len(),
{
    if ls.len() > 0 {
        let first = seq![ls[0]];
        let rest = ls.drop_first();
        assert(ls == first + rest);
        lemma_unlines_concat(first, rest);
        assert(first.drop_last() == Seq::<Seq<char>>::empty());
        assert(unlines(first.drop_last()) == Seq::<char>::empty());
        assert(first.last() == ls[0]);
        assert(unlines(first) == ls[0].push('\n'));
        lemma_lines_front(ls[0], unlines(rest));
        lemma_lines_of_unlines(rest);
        assert(seq![ls[0]] + rest == ls);
    }
}

proof fn lemma_lines_one_line(s: Seq<char>)
    ensures
        forall|i: int| 0 <= i < lines_of(s).len() ==> one_line(#[trigger] lines_of(s)[i]),
    decreases s.len(),
{
    if s.len() > 0 {
        let k = span(s, newline());
        lemma_span(s, newline());
        if k >= s.len() {
            assert(one_line(s)) by {
                if s.contains('\n') {
                    let i = choose|i: int| 0 <= i < s.len() && s[i] == '\n';
                    assert(!newline()(s[i]));
                }
            }
        } else {
            let l = strip_cr(s.take(k));
            lemma_lines_one_line(s.skip(k + 1));
            assert(one_line(l)) by {
                if l.contains('\n') {
                    let i = choose|i: int| 0 <= i < l.len() && l[i] == '\n';
                    assert(!newline()(s[i]));
                }
            }
            let rest = lines_of(s.skip(k + 1));
            assert forall|i: int| 0 <= i < lines_of(s).len() implies one_line(#[trigger] lines_of(s)[i]) by {
                if i > 0 {
                    assert(lines_of(s)[i] == rest[i - 1]);
                } else {
                    assert(lines_of(s)[0] == l);
                }
            }
        }
    }
}

// ---------------------------------------------------------------------------
// White space
// ---------------------------------------------------------------------------

proof fn lemma_trim_start(s: Seq<char>)
    ensures
        trim_start(s).len() <= s.len(),
        trim_start(s) == s.skip(s.len() - trim_start(s).len()),
        trim_start(s).len() > 0 ==> !is_whitespace(trim_start(s)[0]),
    decreases s.len(),
{
    if s.len() > 0 && is_whitespace(s[0]) {
        lemma_trim_start(s.drop_first());
        let t = trim_start(s);
        assert(s.drop_first().skip(s.len() - 1 - t.len()) == s.skip(s.len() - t.len()));
    } else {
        assert(s.skip(0) == s);
    }
}

proof fn lemma_trim_end(s: Seq<char>)
    ensures
        trim_end(s).len() <= s.len(),
        trim_end(s) == s.take(trim_end(s).len() as int),
        trim_end(s).len() > 0 ==> !is_whitespace(trim_end(s).last()),
    decreases s.len(),
{
    if s.len() > 0 && is_whitespace(s.last()) {
        lemma_trim_end(s.drop_last());
        let n = trim_end(s).len() as int;
        assert(s.drop_last().take(n) == s.take(n));
    } else {
        assert(s.take(s.len() as int) == s);
    }
}

proof fn lemma_strip_crs(s: Seq<char>)
    ensures
        strip_crs(s).len() <= s.len(),
        strip_crs(s) == s.take(strip_crs(s).len() as int),
        strip_crs(s).len() > 0 ==> strip_crs(s).last() != '\r',
        s.len() > 0 && !is_whitespace(s[0]) ==> strip_crs(s).len() > 0,
    decreases s.len(),
{
    if s.len() > 0 && s.last() == '\r' {
        lemma_strip_crs(s.drop_last());
        let n = strip_crs(s).len() as int;
        assert(s.drop_last().take(n) == s.take(n));
        if !is_whitespace(s[0]) {
            assert(s.drop_last().len() > 0);
            assert(s.drop_last()[0] == s[0]);
        }
    } else {
        assert(s.take(s.len() as int) == s);
    }
}

/// The line without what does not belong to it: its start is not white space, and its end
/// is no carriage return.
proof fn lemma_stripped(raw: Seq<char>)
    ensures
        strip_crs(trim_start(raw)).len() > 0 ==> !is_whitespace(strip_crs(trim_start(raw))[0]) && strip_crs(
            trim_start(raw),
        ).last() != '\r',
        one_line(raw) ==> one_line(strip_crs(trim_start(raw))),
{
    let t = trim_start(raw);
    lemma_trim_start(raw);
    lemma_strip_crs(t);
    if one_line(raw) {
        lemma_skip_one_line(raw, raw.len() - t.len());
        lemma_skip_one_line(t, strip_crs(t).len() as int);
    }
}

proof fn lemma_skip_one_line(s: Seq<char>, k: int)
    requires
        one_line(s),
        0 <= k <= s.len(),
    ensures
        one_line(s.skip(k)),
        one_line(s.take(k)),
{
    if s.skip(k).contains('\n') {
        let i = choose|i: int| 0 <= i < s.skip(k).len() && s.skip(k)[i] == '\n';
        assert(s[k + i] == '\n');
    }
    if s.take(k).contains('\n') {
        let i = choose|i: int| 0 <= i < s.take(k).len() && s.take(k)[i] == '\n';
        assert(s[i] == '\n');
    }
}

proof fn lemma_trim_start_push(s: Seq<char>, c: char)
    requires
        is_whitespace(c),
    ensures
        trim_start(s).len() == 0 ==> trim_start(s.push(c)).len() == 0,
        trim_start(s).len() > 0 ==> trim_start(s.push(c)) == trim_start(s).push(c),
    decreases s.len(),
{
    if s.len() == 0 {
        assert(s.push(c).drop_first() == s);
    } else if is_whitespace(s[0]) {
        lemma_trim_start_push(s.drop_first(), c);
        assert(s.push(c).drop_first() == s.drop_first().push(c));
    }
}

/// A carriage return at the end of a line says nothing.
pub proof fn lemma_line_strip_cr(s: Seq<char>)
    ensures
        line_of(strip_cr(s)) == line_of(s),
{
    if s.len() > 0 && s.last() == '\r' {
        let x = s.drop_last();
        assert(s == x.push('\r'));
        lemma_trim_start_push(x, '\r');
        if trim_start(x).len() > 0 {
            let t = trim_start(x);
            assert(t.push('\r').drop_last() == t);
        } else {
            assert(trim_start(x) == trim_start(s));
        }
    }
}

/// A line feed at the end of a text ends its last line, or adds an empty one.
spec fn ended(a: Seq<Seq<char>>, b: Seq<Seq<char>>) -> bool {
    ||| b == a.push(seq![])
    ||| a.len() > 0 && b == a.drop_last().push(strip_cr(a.last()))
}

proof fn lemma_lines_ended(text: Seq<char>)
    ensures
        ended(lines_of(text), lines_of(text.push('\n'))),
    decreases text.len(),
{
    let more = text.push('\n');
    let k = span(text, newline());
    lemma_span(text, newline());
    assert forall|i: int| 0 <= i < k implies !newline()(#[trigger] more[i]) by {
        assert(more[i] == text[i]);
    }
    assert(newline()(more[k]));
    lemma_span_is(more, newline(), k);
    if k >= text.len() {
        assert(more.take(k) == text);
        assert(more.skip(k + 1) == Seq::<char>::empty());
        assert(lines_of(more.skip(k + 1)) == Seq::<Seq<char>>::empty());
        assert(lines_of(more) == seq![strip_cr(text)] + lines_of(more.skip(k + 1)));
        assert(lines_of(more) == seq![strip_cr(text)]);
        if text.len() == 0 {
            assert(strip_cr(text) == Seq::<char>::empty());
            assert(lines_of(text) == Seq::<Seq<char>>::empty());
            assert(lines_of(text).push(seq![]) == seq![strip_cr(text)]);
        } else {
            assert(lines_of(text).drop_last().push(strip_cr(text)) == seq![strip_cr(text)]);
        }
    } else {
        let rest = text.skip(k + 1);
        lemma_lines_ended(rest);
        assert(more.take(k) == text.take(k));
        assert(more.skip(k + 1) == rest.push('\n'));
        let first = seq![strip_cr(text.take(k))];
        let a = lines_of(rest);
        let b = lines_of(rest.push('\n'));
        if b == a.push(seq![]) {
            assert(first + b == (first + a).push(seq![]));
        } else {
            assert((first + a).drop_last() == first + a.drop_last());
            assert(first + b == (first + a).drop_last().push(strip_cr((first + a).last())));
        }
    }
}

/// A text reads the same with and without a line feed at its end.
pub proof fn lemma_final_newline(text: Seq<char>)
    ensures
        file_of(text.push('\n')) == file_of(text),
{
    let a = lines_of(text);
    let b = lines_of(text.push('\n'));
    lemma_lines_ended(text);
    if b == a.push(seq![]) {
        assert(b.drop_last() == a);
        assert(line_of(b.last()) is None);
    } else {
        assert(b.drop_last() == a.drop_last());
        lemma_line_strip_cr(a.last());
    }
}

// ---------------------------------------------------------------------------
// What the parser returns is well-formed
// ---------------------------------------------------------------------------

proof fn lemma_tail_well_formed(s: Seq<char>)
    requires
        one_line(s),
        s.len() > 0 ==> s.last() != '\r',
        owners_and_comment(s).1 is None && s.len() > 0 ==> !is_whitespace(s.last()),
    ensures
        well_formed_tail(owners_and_comment(s).0, owners_and_comment(s).1),
        s.len() > 0 && owners_and_comment(s).1 is None ==> owners_and_comment(s).0.len() > 0,
    decreases s.len(),
{
    let k = span(s, nonblank());
    let t = s.skip(k);
    lemma_span(s, nonblank());
    lemma_span(t, blank());
    lemma_skip_one_line(s, k);
    if t.len() == 0 {
        if s.len() > 0 {
            assert(!nonblank()(s[s.len() - 1]));
        }
    } else if t[0] == '#' {
        assert(t.last() == s.last());
    } else {
        let m = span(t, blank());
        assert(!is_blank(t[0]));
        assert(m > 0);
        let rest = t.skip(m);
        let w = t.take(m);
        lemma_skip_one_line(t, m);
        if rest.len() > 0 {
            assert(rest.last() == s.last());
        }
        let (owners, comment) = owners_and_comment(rest);
        let all = seq![w] + owners;
        assert(owners_and_comment(s) == (all, comment));
        lemma_tail_well_formed(rest);
        assert(is_owner(w)) by {
            assert forall|i: int| 0 <= i < w.len() implies !is_blank(#[trigger] w[i]) by {
                assert(!blank()(t[i]));
            }
        }
        assert forall|i: int| 0 <= i < all.len() implies is_owner(#[trigger] all[i]) by {
            if i > 0 {
                assert(all[i] == owners[i - 1]);
            }
        }
        if comment is None {
            if owners.len() > 0 {
                assert(all.last() == owners.last());
            } else {
                assert(rest.len() == 0);
                assert(all.last() == w);
                assert(w.last() == s.last());
            }
        }
    }
}

proof fn lemma_rule_well_formed(t: Seq<char>)
    requires
        one_line(t),
        t.len() > 0,
        t[0] != '#',
        !is_whitespace(t[0]),
        t.last() != '\r',
        rule_of(t).inline_comment is None ==> !is_whitespace(t.last()),
    ensures
        well_formed_rule(rule_of(t)),
{
    let r = rule_of(t);
    assert(!is_blank(t[0]));
    lemma_span_is(t, nonblank(), 0);
    assert(t.skip(0) == t);
    let k = span(t, blank());
    lemma_span(t, blank());
    assert(k > 0);
    let rest = t.skip(k);
    lemma_skip_one_line(t, k);
    if rest.len() > 0 {
        assert(rest.last() == t.last());
    }
    lemma_tail_well_formed(rest);
    assert(is_owner(r.pattern)) by {
        assert forall|i: int| 0 <= i < r.pattern.len() implies !is_blank(#[trigger] r.pattern[i]) by {
            assert(!blank()(t[i]));
        }
    }
    if r.inline_comment is None && r.owners.len() == 0 {
        assert(rest.len() == 0);
        assert(r.pattern == t);
    }
}

proof fn lemma_line_well_formed(raw: Seq<char>)
    requires
        one_line(raw),
    ensures
        line_of(raw) matches Some(line) ==> well_formed_line(line),
{
    let s = strip_crs(trim_start(raw));
    lemma_stripped(raw);
    if s.len() > 0 && s[0] != '#' {
        if rule_of(s).inline_comment is Some {
            lemma_rule_well_formed(s);
        } else {
            let t = trim_end(s);
            lemma_trim_end(s);
            lemma_trim_end_nonempty(s);
            lemma_skip_one_line(s, t.len() as int);
            lemma_rule_well_formed(t);
        }
    }
}

proof fn lemma_trim_end_nonempty(s: Seq<char>)
    requires
        s.len() > 0,
        !is_whitespace(s[0]),
    ensures
        trim_end(s).len() > 0,
        trim_end(s)[0] == s[0],
    decreases s.len(),
{
    if is_whitespace(s.last()) {
        assert(s.drop_last().len() > 0);
        lemma_trim_end_nonempty(s.drop_last());
    }
}

proof fn lemma_grouped_well_formed(raw: Seq<Seq<char>>)
    requires
        forall|i: int| 0 <= i < raw.len() ==> one_line(#[trigger] raw[i]),
    ensures
        well_formed(grouped(raw).0),
        forall|i: int| 0 <= i < grouped(raw).1.len() ==> well_formed_line(#[trigger] grouped(raw).1[i]),
    decreases raw.len(),
{
    if raw.len() > 0 {
        lemma_grouped_well_formed(raw.drop_last());
        lemma_line_well_formed(raw.last());
    }
}

/// Whatever the text, the file that it spells is well-formed: no group is empty, each
/// comment starts with `#`, and patterns and owners are words.
pub proof fn lemma_parsed_well_formed(text: Seq<char>)
    ensures
        well_formed(file_of(text)),
{
    lemma_lines_one_line(text);
    lemma_grouped_well_formed(lines_of(text));
}

// ---------------------------------------------------------------------------
// What the formatter writes reads back
// ---------------------------------------------------------------------------

/// Owners and an inline comment, each after one space.
spec fn tail_text(owners: Seq<Seq<char>>, comment: Option<Seq<char>>) -> Seq<char>
    decreases owners.len(),
{
    if owners.len() == 0 {
        match comment {
            Some(c) => seq![' '] + c,
            None => seq![],
        }
    } else {
        seq![' '] + owners[0] + tail_text(owners.drop_first(), comment)
    }
}

proof fn lemma_join_front(ws: Seq<Seq<char>>)
    requires
        ws.len() >= 2,
    ensures
        join_words(ws) == ws[0] + seq![' '] + join_words(ws.drop_first()),
    decreases ws.len(),
{
    let rest = ws.drop_first();
    if ws.len() == 2 {
        assert(join_words(ws.drop_last()) == ws[0]);
        assert(join_words(rest) == ws.last());
    } else {
        lemma_join_front(ws.drop_last());
        assert(ws.drop_last().drop_first() == rest.drop_last());
        let middle = join_words(rest.drop_last());
        assert(join_words(rest) == middle.push(' ') + ws.last());
        assert(join_words(ws) == (ws[0] + seq![' '] + middle).push(' ') + ws.last());
    }
    assert(join_words(ws) == ws[0] + seq![' '] + join_words(rest));
}

proof fn lemma_join_tail(ws: Seq<Seq<char>>, comment: Option<Seq<char>>)
    requires
        ws.len() > 0,
    ensures
        seq![' '] + join_words(ws) + tail_text(seq![], comment) == tail_text(ws, comment),
    decreases ws.len(),
{
    let rest = ws.drop_first();
    if ws.len() == 1 {
        assert(rest == Seq::<Seq<char>>::empty());
    } else {
        lemma_join_front(ws);
        lemma_join_tail(rest, comment);
        let end = tail_text(seq![], comment);
        assert(seq![' '] + (ws[0] + seq![' '] + join_words(rest)) + end == seq![' '] + ws[0] + (seq![' ']
            + join_words(rest) + end));
    }
}

/// A rule is written as its pattern, spaces up to the owner column, and the tail.
proof fn lemma_rule_text(r: RuleView, column: nat)
    ensures
        exists|n: nat|
            #![trigger spaces(n)]
            rule_text(r, column) == r.pattern + (spaces(n) + tail_text(r.owners, r.inline_comment)),
{
    let end = tail_text(seq![], r.inline_comment);
    if r.owners.len() > 0 {
        let n = padding(column, byte_len(r.pattern));
        let m = (n - 1) as nat;
        assert(spaces(n) == spaces(m) + seq![' ']);
        lemma_join_tail(r.owners, r.inline_comment);
        let joined = join_words(r.owners);
        assert(rule_text(r, column) == r.pattern + spaces(n) + joined + end);
        assert(r.pattern + (spaces(m) + seq![' ']) + joined + end == r.pattern + (spaces(m) + (seq![' '] + joined
            + end)));
        assert(rule_text(r, column) == r.pattern + (spaces(m) + tail_text(r.owners, r.inline_comment)));
    } else {
        assert(r.owners == Seq::<Seq<char>>::empty());
        assert(spaces(0) == Seq::<char>::empty());
        assert(rule_text(r, column) == r.pattern + end);
        assert(rule_text(r, column) == r.pattern + (spaces(0) + end));
    }
}

proof fn lemma_read_tail(n: nat, owners: Seq<Seq<char>>, comment: Option<Seq<char>>)
    requires
        well_formed_tail(owners, comment),
    ensures
        owners_and_comment(spaces(n) + tail_text(owners, comment)) == (owners, comment),
    decreases owners.len(),
{
    let tail = tail_text(owners, comment);
    let s = spaces(n) + tail;
    if owners.len() == 0 {
        match comment {
            Some(c) => {
                assert(s[n as int] == ' ');
                assert forall|i: int| 0 <= i < n + 1 implies !nonblank()(#[trigger] s[i]) by {}
                assert(s[n as int + 1] == c[0]);
                lemma_span_is(s, nonblank(), n as int + 1);
                assert(s.skip(n as int + 1) == c);
            },
            None => {
                assert forall|i: int| 0 <= i < n implies !nonblank()(#[trigger] s[i]) by {}
                lemma_span_is(s, nonblank(), n as int);
                assert(s.skip(n as int) == Seq::<char>::empty());
            },
        }
    } else {
        let w = owners[0];
        let rest = owners.drop_first();
        let more = tail_text(rest, comment);
        assert(is_owner(w));
        assert forall|i: int| 0 <= i < n + 1 implies !nonblank()(#[trigger] s[i]) by {}
        assert(s[n as int + 1] == w[0]);
        lemma_span_is(s, nonblank(), n as int + 1);
        let t = s.skip(n as int + 1);
        assert(t == w + more);
        assert forall|i: int| 0 <= i < w.len() implies !blank()(#[trigger] t[i]) by {
            assert(t[i] == w[i]);
        }
        if w.len() < t.len() {
            assert(t[w.len() as int] == more[0]);
            assert(more[0] == ' ');
        }
        lemma_span_is(t, blank(), w.len() as int);
        assert(t.take(w.len() as int) == w);
        assert(t.skip(w.len() as int) == more);
        assert(spaces(0) + more == more);
        assert(well_formed_tail(rest, comment)) by {
            assert forall|i: int| 0 <= i < rest.len() implies is_owner(#[trigger] rest[i]) by {
                assert(rest[i] == owners[i + 1]);
            }
            if rest.len() > 0 {
                assert(rest.last() == owners.last());
            }
        }
        lemma_read_tail(0, rest, comment);
        assert(seq![w] + rest == owners);
    }
}

proof fn lemma_concat_one_line(a: Seq<char>, b: Seq<char>)
    requires
        one_line(a),
        one_line(b),
    ensures
        one_line(a + b),
{
    if (a + b).contains('\n') {
        let i = choose|i: int| 0 <= i < (a + b).len() && (a + b)[i] == '\n';
        if i < a.len() {
            assert(a[i] == '\n');
        } else {
            assert(b[i - a.len()] == '\n');
        }
    }
}

/// The tail stays within its line, starts with a space and ends as its last part does.
proof fn lemma_tail_text(owners: Seq<Seq<char>>, comment: Option<Seq<char>>)
    requires
        well_formed_tail(owners, comment),
    ensures
        one_line(tail_text(owners, comment)),
        tail_text(owners, comment).len() == 0 <==> owners.len() == 0 && comment is None,
        tail_text(owners, comment).len() > 0 ==> {
            &&& tail_text(owners, comment)[0] == ' '
            &&& tail_text(owners, comment).last() != '\r'
            &&& comment is None ==> !is_whitespace(tail_text(owners, comment).last())
        },
    decreases owners.len(),
{
    let sp: Seq<char> = seq![' '];
    assert(one_line(sp));
    if owners.len() == 0 {
        if let Some(c) = comment {
            lemma_concat_one_line(sp, c);
        }
    } else {
        let w = owners[0];
        let rest = owners.drop_first();
        assert(is_owner(w));
        assert(well_formed_tail(rest, comment)) by {
            assert forall|i: int| 0 <= i < rest.len() implies is_owner(#[trigger] rest[i]) by {
                assert(rest[i] == owners[i + 1]);
            }
            if rest.len() > 0 {
                assert(rest.last() == owners.last());
            }
        }
        lemma_tail_text(rest, comment);
        let more = tail_text(rest, comment);
        lemma_concat_one_line(sp, w);
        lemma_concat_one_line(sp + w, more);
        if more.len() == 0 {
            assert(owners.last() == w);
            assert((sp + w + more).last() == w.last());
        } else {
            assert((sp + w + more).last() == more.last());
        }
    }
}

/// A well-formed line is written as one clean line that reads back as that line.
proof fn lemma_line_reads_back(line: LineView, column: nat)
    requires
        well_formed_line(line),
    ensures
        clean_line(line_text(line, column)),
        line_of(line_text(line, column)) == Some(line),
{
    let text = line_text(line, column);
    match line {
        LineView::Comment(c) => {
        },
        LineView::Rule(r) => {
            lemma_rule_text(r, column);
            let n = choose|n: nat|
                #![trigger spaces(n)]
                text == r.pattern + (spaces(n) + tail_text(r.owners, r.inline_comment));
            let tail = tail_text(r.owners, r.inline_comment);
            let p = r.pattern;
            lemma_tail_text(r.owners, r.inline_comment);
            assert(one_line(spaces(n)));
            lemma_concat_one_line(spaces(n), tail);
            lemma_concat_one_line(p, spaces(n) + tail);
            assert(text[0] == p[0]);
            if tail.len() > 0 {
                assert(text.last() == tail.last());
            } else {
                lemma_bare_rule_text(r, column);
                assert(text == p);
            }
            // The pattern is the first word.
            lemma_span_is(text, nonblank(), 0);
            assert(text.skip(0) == text);
            assert forall|i: int| 0 <= i < p.len() implies !blank()(#[trigger] text[i]) by {
                assert(text[i] == p[i]);
            }
            if p.len() < text.len() {
                assert(text[p.len() as int] == (spaces(n) + tail)[0]);
                assert((spaces(n) + tail)[0] == ' ');
            }
            lemma_span_is(text, blank(), p.len() as int);
            assert(text.take(p.len() as int) == p);
            assert(text.skip(p.len() as int) == spaces(n) + tail);
            lemma_read_tail(n, r.owners, r.inline_comment);
        },
    }
}

proof fn lemma_bare_rule_text(r: RuleView, column: nat)
    requires
        r.owners.len() == 0,
        r.inline_comment is None,
    ensures
        rule_text(r, column) == r.pattern,
{
}

proof fn lemma_read_group(before: Seq<Seq<char>>, group: Seq<LineView>, column: nat, k: int)
    requires
        well_formed_group(group),
        grouped(before).1.len() == 0,
        0 <= k <= group.len(),
    ensures
        grouped(before + Seq::new(k as nat, |i: int| line_text(group[i], column))) == (
            grouped(before).0,
            group.take(k),
        ),
    decreases k,
{
    let texts = Seq::new(k as nat, |i: int| line_text(group[i], column));
    let raw = before + texts;
    if k == 0 {
        assert(raw == before);
        assert(grouped(before).1 == group.take(0));
    } else {
        let fewer = Seq::new((k - 1) as nat, |i: int| line_text(group[i], column));
        lemma_read_group(before, group, column, k - 1);
        assert(raw.drop_last() == before + fewer);
        assert(raw.last() == line_text(group[k - 1], column));
        lemma_line_reads_back(group[k - 1], column);
        assert(group.take(k) == group.take(k - 1).push(group[k - 1]));
    }
}

proof fn lemma_read_texts(groups: Seq<Seq<LineView>>, global: nat)
    requires
        well_formed(groups),
        groups.len() > 0,
    ensures
        grouped(file_texts(groups, global)) == (groups.drop_last(), groups.last()),
        file_texts(groups, global).len() > 0,
        forall|i: int| 0 <= i < file_texts(groups, global).len()
            ==> clean_line(#[trigger] file_texts(groups, global)[i]),
    decreases groups.len(),
{
    let g = groups.last();
    let column = owner_column(g, global);
    let texts = group_texts(g, global);
    assert(well_formed_group(g));
    assert forall|i: int| 0 <= i < texts.len() implies clean_line(#[trigger] texts[i]) by {
        lemma_line_reads_back(g[i], column);
    }
    assert(g.take(g.len() as int) == g);
    assert(texts == Seq::new(g.len(), |i: int| line_text(g[i], column)));
    if groups.len() == 1 {
        let none: Seq<Seq<char>> = seq![];
        lemma_read_group(none, g, column, g.len() as int);
        assert(none + texts == texts);
        assert(groups.drop_last() == Seq::<Seq<LineView>>::empty());
    } else {
        let front = groups.drop_last();
        assert forall|i: int| 0 <= i < front.len() implies well_formed_group(#[trigger] front[i]) by {
            assert(front[i] == groups[i]);
        }
        lemma_read_texts(front, global);
        let empty_line: Seq<char> = seq![];
        let before = file_texts(front, global).push(empty_line);
        assert(before.drop_last() == file_texts(front, global));
        assert(line_of(empty_line) is None);
        assert(well_formed_group(front.last()));
        assert(front.drop_last().push(front.last()) == front);
        assert(grouped(before) == (front, Seq::<LineView>::empty()));
        lemma_read_group(before, g, column, g.len() as int);
        assert forall|i: int| 0 <= i < (before + texts).len()
            implies clean_line(#[trigger] (before + texts)[i]) by {
            if i >= before.len() {
                assert((before + texts)[i] == texts[i - before.len()]);
            } else if i < before.len() - 1 {
                assert((before + texts)[i] == file_texts(front, global)[i]);
            }
        }
    }
}

/// The lines of the formatted text, each of which is ended by a line feed.
pub proof fn lemma_formatted_lines(groups: Seq<Seq<LineView>>)
    requires
        well_formed(groups),
        groups.len() > 0,
    ensures
        lines_of(format_of(groups)) == file_texts(groups, global_column(groups)),
        format_of(groups) == unlines(file_texts(groups, global_column(groups))),
{
    let texts = file_texts(groups, global_column(groups));
    lemma_read_texts(groups, global_column(groups));
    lemma_lines_of_unlines(texts);
    assert(unlines(texts).last() == '\n');
}

/// Formatting loses nothing: the formatted text of a well-formed file reads back as
/// that file.
pub proof fn lemma_format_reads_back(groups: Seq<Seq<LineView>>)
    requires
        well_formed(groups),
    ensures
        file_of(format_of(groups)) == groups,
{
    let global = global_column(groups);
    let texts = file_texts(groups, global);
    if groups.len() == 0 {
        let text = format_of(groups);
        let empty_line: Seq<char> = seq![];
        assert(text == empty_line.push('\n') + seq![]);
        lemma_lines_front(empty_line, seq![]);
        let raw = lines_of(text);
        assert(raw == seq![empty_line]);
        assert(raw.drop_last() == Seq::<Seq<char>>::empty());
        assert(grouped(raw.drop_last()) == (Seq::<Seq<LineView>>::empty(), Seq::<LineView>::empty()));
        assert(line_of(raw.last()) is None);
        assert(file_of(text) == Seq::<Seq<LineView>>::empty());
        assert(groups == Seq::<Seq<LineView>>::empty());
    } else {
        lemma_read_texts(groups, global);
        lemma_lines_of_unlines(texts);
        assert(ensure_newline(unlines(texts)) == unlines(texts));
        assert(well_formed_group(groups.last()));
        assert(groups.drop_last().push(groups.last()) == groups);
    }
}

/// Formatting is idempotent: formatting what the formatter has written changes nothing.
pub proof fn lemma_format_idempotent(text: Seq<char>)
    ensures
        format_of(file_of(format_of(file_of(text)))) == format_of(file_of(text)),
{
    lemma_parsed_well_formed(text);
    lemma_format_reads_back(file_of(text));
}

} // verus!
