//! What the operations on texts do, character by character.
use vstd::prelude::*;

verus! {

use crate::text::{
    blank, decimal, is_blank, is_whitespace, join_words, lemma_span_is, lines_of, newline, nonblank, seq_less,
    strings_view, strip_cr, strip_crs, trim_end, trim_start, unlines,
};

/// A line reaches to the next line feed, a carriage return before it aside, and the lines
/// after it are those of the rest. The last line needs no ending, and loses nothing.
pub proof fn lemma_lines(line: Seq<char>, rest: Seq<char>)
    requires
        forall|i: int| 0 <= i < line.len() ==> line[i] != '\n',
    ensures
        !(line.len() > 0 && line.last() == '\r')
            ==> lines_of(line + seq!['\n'] + rest) == seq![line] + lines_of(
            rest,
        ),
        lines_of(line + seq!['\r', '\n'] + rest) == seq![line] + lines_of(rest),
        line.len() > 0 ==> lines_of(line) == seq![line],
        lines_of(Seq::<char>::empty()) == Seq::<Seq<char>>::empty(),
{
    let n = line.len() as int;
    let a = line + seq!['\n'] + rest;
    assert forall|i: int| 0 <= i < n implies !newline()(#[trigger] a[i]) by {
        assert(a[i] == line[i]);
    }
    assert(newline()(a[n]));
    lemma_span_is(a, newline(), n);
    assert(a.take(n) == line);
    assert(a.skip(n + 1) == rest);
    let b = line + seq!['\r', '\n'] + rest;
    assert forall|i: int| 0 <= i < n + 1 implies !newline()(#[trigger] b[i]) by {
        if i < n {
            assert(b[i] == line[i]);
        }
    }
    assert(newline()(b[n + 1]));
    lemma_span_is(b, newline(), n + 1);
    assert(b.take(n + 1) == line.push('\r'));
    assert(line.push('\r').drop_last() == line);
    assert(strip_cr(b.take(n + 1)) == line);
    assert(b.skip(n + 2) == rest);
    assert forall|i: int| 0 <= i < n implies !newline()(#[trigger] line[i]) by {}
    lemma_span_is(line, newline(), n);
}

/// Each line is ended by one line feed, and the lines stand one after the other.
pub proof fn lemma_unlines(line: Seq<char>, a: Seq<Seq<char>>, b: Seq<Seq<char>>)
    ensures
        unlines(Seq::empty()) == Seq::<char>::empty(),
        unlines(seq![line]) == line + seq!['\n'],
        unlines(a + b) == unlines(a) + unlines(b),
{
    let one = seq![line];
    assert(one.drop_last() == Seq::<Seq<char>>::empty());
    assert(unlines(one.drop_last()) == Seq::<char>::empty());
    assert(unlines(one) == line + seq!['\n']);
    crate::formatter::lemma_unlines_concat(a, b);
}

/// Words are joined by one space between each two, and no others.
pub proof fn lemma_join_words(word: Seq<char>, a: Seq<Seq<char>>, b: Seq<Seq<char>>)
    ensures
        join_words(Seq::empty()) == Seq::<char>::empty(),
        join_words(seq![word]) == word,
        a.len() > 0 && b.len() > 0 ==> join_words(a + b) == join_words(a) + seq![' '] + join_words(b),
    decreases b.len(),
{
    if a.len() > 0 && b.len() > 0 {
        let all = a + b;
        if b.len() == 1 {
            assert(all.drop_last() == a);
            assert(all.last() == b[0]);
            assert(join_words(all) == join_words(a) + seq![' '] + join_words(b));
        } else {
            let front = b.drop_last();
            lemma_join_words(word, a, front);
            assert(all.drop_last() == a + front);
            assert(join_words(all) == join_words(a) + seq![' '] + join_words(b));
        }
    }
}

/// A number below ten is written as its digit, and any other as its tens followed by the
/// digit that is left.
pub proof fn lemma_decimal(tens: nat, ones: nat)
    requires
        ones < 10,
    ensures
        decimal(ones) == seq!["0123456789"@[ones as int]],
        tens > 0 ==> decimal(10 * tens + ones) == decimal(tens) + seq!["0123456789"@[ones as int]],
{
    reveal_strlit("0123456789");
    let n = 10 * tens + ones;
    assert(n / 10 == tens && n % 10 == ones);
    if tens > 0 {
        assert(decimal(n) == decimal(tens) + seq!["0123456789"@[ones as int]]);
    }
}

/// The texts agree before `k`, and there `a` is at its end or has the smaller character.
pub open spec fn smaller_at(a: Seq<char>, b: Seq<char>, k: int) -> bool {
    &&& 0 <= k <= a.len()
    &&& k < b.len()
    &&& forall|i: int| 0 <= i < k ==> a[i] == #[trigger] b[i]
    &&& k == a.len() || a[k] < b[k]
}

/// One text comes before another if it is the start of it, or has the smaller character
/// where they first differ.
pub proof fn lemma_lexicographic(a: Seq<char>, b: Seq<char>)
    ensures
        seq_less(a, b) <==> exists|k: int| smaller_at(a, b, k),
    decreases a.len(),
{
    if a.len() == 0 || b.len() == 0 {
        if b.len() > 0 {
            assert(smaller_at(a, b, 0));
        }
    } else {
        let x = a.drop_first();
        let y = b.drop_first();
        lemma_lexicographic(x, y);
        if seq_less(a, b) {
            if a[0] != b[0] {
                assert(smaller_at(a, b, 0));
            } else {
                let k = choose|k: int| smaller_at(x, y, k);
                assert forall|i: int| 0 <= i < k + 1 implies a[i] == #[trigger] b[i] by {
                    if i > 0 {
                        assert(x[i - 1] == y[i - 1]);
                    }
                }
                assert(smaller_at(a, b, k + 1));
            }
        }
        if exists|k: int| smaller_at(a, b, k) {
            let k = choose|k: int| smaller_at(a, b, k);
            if k > 0 {
                assert(a[0] == b[0]);
                assert forall|i: int| 0 <= i < k - 1 implies x[i] == #[trigger] y[i] by {
                    assert(a[i + 1] == b[i + 1]);
                }
                assert(smaller_at(x, y, k - 1));
            }
        }
    }
}

/// The views of strings are the strings, one by one.
pub proof fn lemma_strings_view(ss: Seq<String>)
    ensures
        strings_view(ss).len() == ss.len(),
        forall|i: int| 0 <= i < ss.len() ==> #[trigger] strings_view(ss)[i] == ss[i]@,
{
}

/// Which characters separate words and lines, and which are white space.
pub proof fn lemma_separators(c: char)
    ensures
        newline()(c) <==> c == '\n',
        blank()(c) <==> c == ' ' || c == '\t',
        nonblank()(c) <==> c != ' ' && c != '\t',
        is_blank(c) <==> c == ' ' || c == '\t',
        is_whitespace(c)
            <==> (9 <= c as u32 <= 13) || (0x2000 <= c as u32 <= 0x200a) || c as u32 == 0x20 || c as u32
            == 0x85 || c as u32 == 0xa0 || c as u32 == 0x1680 || c as u32 == 0x2028 || c as u32 == 0x2029 || c as u32
            == 0x202f || c as u32 == 0x205f || c as u32 == 0x3000,
{
}

/// White space is taken off at the start, and at the end, up to the first and from the last
/// other character on; carriage returns are taken off at the end alone.
pub proof fn lemma_trimmed(lead: Seq<char>, s: Seq<char>)
    requires
        forall|i: int| 0 <= i < lead.len() ==> is_whitespace(#[trigger] lead[i]),
    ensures
        trim_start(lead) == Seq::<char>::empty(),
        trim_end(lead) == Seq::<char>::empty(),
        s.len() > 0 && !is_whitespace(s[0]) ==> trim_start(lead + s) == s,
        s.len() > 0 && !is_whitespace(s[s.len() - 1]) ==> trim_end(s + lead) == s,
        strip_crs(s + seq!['\r']) == strip_crs(s),
        !(s.len() > 0 && s[s.len() - 1] == '\r') ==> strip_crs(s) == s,
        strip_cr(s + seq!['\r']) == s,
        !(s.len() > 0 && s[s.len() - 1] == '\r') ==> strip_cr(s) == s,
    decreases lead.len(),
{
    assert((s + seq!['\r']).drop_last() == s);
    if lead.len() == 0 {
        assert(lead + s == s);
        assert(s + lead == s);
        assert(lead == Seq::<char>::empty());
    } else {
        let rest = lead.drop_first();
        let front = lead.drop_last();
        assert forall|i: int| 0 <= i < rest.len() implies is_whitespace(#[trigger] rest[i]) by {
            assert(rest[i] == lead[i + 1]);
        }
        assert forall|i: int| 0 <= i < front.len() implies is_whitespace(#[trigger] front[i]) by {
            assert(front[i] == lead[i]);
        }
        lemma_trimmed(rest, s);
        lemma_trimmed(front, s);
        assert(is_whitespace(lead[0]));
        assert(is_whitespace(lead[lead.len() - 1]));
        assert((lead + s).drop_first() == rest + s);
        assert((s + lead).drop_last() == s + front);
    }
}

} // verus!
