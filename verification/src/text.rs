//! Characters and strings: the few operations that the rest of the crate needs,
//! specified over sequences of characters.
use vstd::prelude::*;

verus! {

/// The Unicode `White_Space` property.
pub open spec fn is_whitespace(c: char) -> bool {
    ||| '\u{9}' <= c <= '\u{d}'
    ||| c == ' '
    ||| c == '\u{85}'
    ||| c == '\u{a0}'
    ||| c == '\u{1680}'
    ||| '\u{2000}' <= c <= '\u{200a}'
    ||| c == '\u{2028}'
    ||| c == '\u{2029}'
    ||| c == '\u{202f}'
    ||| c == '\u{205f}'
    ||| c == '\u{3000}'
}

/// A space or a tab: what separates the words of a rule.
pub open spec fn is_blank(c: char) -> bool {
    c == ' ' || c == '\t'
}

/// The length of the longest prefix of `s` in which no character satisfies `stop`.
pub open spec fn span(s: Seq<char>, stop: spec_fn(char) -> bool) -> int
    decreases s.len(),
{
    if s.len() == 0 || stop(s[0]) {
        0
    } else {
        1 + span(s.drop_first(), stop)
    }
}

/// What `span` returns, element by element.
pub proof fn lemma_span(s: Seq<char>, stop: spec_fn(char) -> bool)
    ensures
        0 <= span(s, stop) <= s.len(),
        forall|i: int| 0 <= i < span(s, stop) ==> !stop(#[trigger] s[i]),
        span(s, stop) < s.len() ==> stop(s[span(s, stop)]),
    decreases s.len(),
{
    if s.len() > 0 && !stop(s[0]) {
        let t = s.drop_first();
        lemma_span(t, stop);
        assert forall|i: int| 0 <= i < span(s, stop) implies !stop(#[trigger] s[i]) by {
            if i > 0 {
                assert(s[i] == t[i - 1]);
            }
        }
    }
}

/// `k` is what `span` returns as soon as it has the properties of `lemma_span`.
pub proof fn lemma_span_is(s: Seq<char>, stop: spec_fn(char) -> bool, k: int)
    requires
        0 <= k <= s.len(),
        forall|i: int| 0 <= i < k ==> !stop(#[trigger] s[i]),
        k < s.len() ==> stop(s[k]),
    ensures
        span(s, stop) == k,
{
    lemma_span(s, stop);
    let m = span(s, stop);
    if m < k {
        assert(stop(s[m]));
    } else if k < m {
        assert(!stop(s[k]));
    }
}

/// `s` without its leading white space.
pub open spec fn trim_start(s: Seq<char>) -> Seq<char>
    decreases s.len(),
{
    if s.len() > 0 && is_whitespace(s[0]) {
        trim_start(s.drop_first())
    } else {
        s
    }
}

/// `s` without its trailing white space.
pub open spec fn trim_end(s: Seq<char>) -> Seq<char>
    decreases s.len(),
{
    if s.len() > 0 && is_whitespace(s.last()) {
        trim_end(s.drop_last())
    } else {
        s
    }
}

/// `s` without a carriage return at its end.
pub open spec fn strip_cr(s: Seq<char>) -> Seq<char> {
    if s.len() > 0 && s.last() == '\r' {
        s.drop_last()
    } else {
        s
    }
}

/// `s` without the carriage returns at its end.
pub open spec fn strip_crs(s: Seq<char>) -> Seq<char>
    decreases s.len(),
{
    if s.len() > 0 && s.last() == '\r' {
        strip_crs(s.drop_last())
    } else {
        s
    }
}

/// The test that `span` stops at: a line feed.
pub open spec fn newline() -> spec_fn(char) -> bool {
    |c: char| c == '\n'
}

/// The test that `span` stops at: a space or a tab.
pub open spec fn blank() -> spec_fn(char) -> bool {
    |c: char| is_blank(c)
}

/// The test that `span` stops at: anything but a space or a tab.
pub open spec fn nonblank() -> spec_fn(char) -> bool {
    |c: char| !is_blank(c)
}

/// The lines of a text. A line ends at a line feed, or at a carriage return
/// followed by one; the last line needs no ending.
pub open spec fn lines_of(s: Seq<char>) -> Seq<Seq<char>>
    decreases s.len(),
{
    if s.len() == 0 {
        seq![]
    } else {
        let k = span(s, newline());
        proof {
            lemma_span(s, newline());
        }
        if k >= s.len() {
            seq![s]
        } else {
            seq![strip_cr(s.take(k))] + lines_of(s.skip(k + 1))
        }
    }
}

/// The lines of `ls` one after the other, each ended by a line feed.
pub open spec fn unlines(ls: Seq<Seq<char>>) -> Seq<char>
    decreases ls.len(),
{
    if ls.len() == 0 {
        seq![]
    } else {
        unlines(ls.drop_last()) + ls.last().push('\n')
    }
}

/// The views of the strings `ss`.
pub open spec fn strings_view(ss: Seq<String>) -> Seq<Seq<char>> {
    Seq::new(ss.len(), |i: int| ss[i]@)
}

/// The words of `ws` with one space between each two.
pub open spec fn join_words(ws: Seq<Seq<char>>) -> Seq<char>
    decreases ws.len(),
{
    if ws.len() == 0 {
        seq![]
    } else if ws.len() == 1 {
        ws[0]
    } else {
        join_words(ws.drop_last()).push(' ') + ws.last()
    }
}

/// `std::string::String::push` appends one character.
pub assume_specification[ String::push ](s: &mut String, c: char)
    ensures
        final(s)@ == old(s)@.push(c),
;

/// The characters of `s`.
pub fn chars_of(s: &str) -> (r: Vec<char>)
    ensures
        r@ == s@,
{
    let mut r: Vec<char> = Vec::new();
    for c in it: s.chars()
        invariant
            r@ == it.seq().take(it.index() as int),
            it.seq() == s@,
    {
        r.push(c);
    }
    r
}

/// The string that holds the characters `cs`.
pub fn string_of(cs: &[char]) -> (r: String)
    ensures
        r@ == cs@,
{
    let mut r: String = String::new();
    for i in 0..cs.len()
        invariant
            r@ == cs@.take(i as int),
    {
        r.push(cs[i]);
        assert(cs@.take(i + 1) == cs@.take(i as int).push(cs@[i as int]));
    }
    assert(cs@.take(cs@.len() as int) == cs@);
    r
}

/// Whether `c` has the Unicode `White_Space` property.
pub fn whitespace(c: char) -> (r: bool)
    ensures
        r == is_whitespace(c),
{
    ('\u{9}' <= c && c <= '\u{d}') || c == ' ' || c == '\u{85}' || c == '\u{a0}' || c == '\u{1680}' || (
    '\u{2000}' <= c && c <= '\u{200a}') || c == '\u{2028}' || c == '\u{2029}' || c == '\u{202f}' || c
        == '\u{205f}' || c == '\u{3000}'
}

/// The index of the first line feed of `cs` at or after `from`, or the length of `cs`.
fn next_newline(cs: &[char], from: usize) -> (r: usize)
    requires
        from <= cs@.len(),
    ensures
        r == from + span(cs@.skip(from as int), newline()),
        from <= r <= cs@.len(),
{
    let mut i: usize = from;
    while i < cs.len() && cs[i] != '\n'
        invariant
            from <= i <= cs@.len(),
            forall|k: int| from <= k < i ==> cs@[k] != '\n',
        decreases cs@.len() - i,
    {
        i = i + 1;
    }
    proof {
        lemma_span_is(cs@.skip(from as int), newline(), i - from);
    }
    i
}

/// The index of the first space or tab of `cs` at or after `from`, or the length of `cs`.
pub fn next_blank(cs: &[char], from: usize) -> (r: usize)
    requires
        from <= cs@.len(),
    ensures
        r == from + span(cs@.skip(from as int), blank()),
        from <= r <= cs@.len(),
{
    let mut i: usize = from;
    while i < cs.len() && cs[i] != ' ' && cs[i] != '\t'
        invariant
            from <= i <= cs@.len(),
            forall|k: int| from <= k < i ==> !is_blank(#[trigger] cs@[k]),
        decreases cs@.len() - i,
    {
        i = i + 1;
    }
    proof {
        lemma_span_is(cs@.skip(from as int), blank(), i - from);
    }
    i
}

/// The index of the first character of `cs` at or after `from` that is neither a space
/// nor a tab, or the length of `cs`.
pub fn next_nonblank(cs: &[char], from: usize) -> (r: usize)
    requires
        from <= cs@.len(),
    ensures
        r == from + span(cs@.skip(from as int), nonblank()),
        from <= r <= cs@.len(),
{
    let mut i: usize = from;
    while i < cs.len() && (cs[i] == ' ' || cs[i] == '\t')
        invariant
            from <= i <= cs@.len(),
            forall|k: int| from <= k < i ==> is_blank(#[trigger] cs@[k]),
        decreases cs@.len() - i,
    {
        i = i + 1;
    }
    proof {
        lemma_span_is(cs@.skip(from as int), nonblank(), i - from);
    }
    i
}

/// `cs` without its leading white space.
pub fn trimmed_start(cs: &[char]) -> (r: &[char])
    ensures
        r@ == trim_start(cs@),
{
    let mut lo: usize = 0;
    assert(cs@.skip(0) == cs@);
    while lo < cs.len() && whitespace(cs[lo])
        invariant
            lo <= cs@.len(),
            trim_start(cs@.skip(lo as int)) == trim_start(cs@),
        decreases cs@.len() - lo,
    {
        assert(cs@.skip(lo as int).drop_first() == cs@.skip(lo + 1));
        lo = lo + 1;
    }
    assert(cs@.subrange(lo as int, cs@.len() as int) == cs@.skip(lo as int));
    vstd::slice::slice_subrange(cs, lo, cs.len())
}

/// `cs` without its trailing white space.
pub fn trimmed_end(cs: &[char]) -> (r: &[char])
    ensures
        r@ == trim_end(cs@),
{
    let mut hi: usize = cs.len();
    assert(cs@.take(hi as int) == cs@);
    while hi > 0 && whitespace(cs[hi - 1])
        invariant
            hi <= cs@.len(),
            trim_end(cs@.take(hi as int)) == trim_end(cs@),
        decreases hi,
    {
        assert(cs@.take(hi as int).drop_last() == cs@.take(hi - 1));
        hi = hi - 1;
    }
    assert(cs@.subrange(0, hi as int) == cs@.take(hi as int));
    vstd::slice::slice_subrange(cs, 0, hi)
}

/// `cs` without the carriage returns at its end.
pub fn without_returns(cs: &[char]) -> (r: &[char])
    ensures
        r@ == strip_crs(cs@),
{
    let mut hi: usize = cs.len();
    assert(cs@.take(hi as int) == cs@);
    while hi > 0 && cs[hi - 1] == '\r'
        invariant
            hi <= cs@.len(),
            strip_crs(cs@.take(hi as int)) == strip_crs(cs@),
        decreases hi,
    {
        assert(cs@.take(hi as int).drop_last() == cs@.take(hi - 1));
        hi = hi - 1;
    }
    assert(cs@.subrange(0, hi as int) == cs@.take(hi as int));
    vstd::slice::slice_subrange(cs, 0, hi)
}

/// The lines of `text`, without their endings.
pub fn lines(text: &str) -> (r: Vec<String>)
    ensures
        strings_view(r@) == lines_of(text@),
{
    let all: Vec<char> = chars_of(text);
    let cs: &[char] = all.as_slice();
    let mut r: Vec<String> = Vec::new();
    let mut pos: usize = 0;
    assert(cs@.skip(0) == cs@);
    while pos < cs.len()
        invariant
            cs@ == text@,
            pos <= cs@.len(),
            strings_view(r@) + lines_of(cs@.skip(pos as int)) == lines_of(text@),
        decreases cs@.len() - pos,
    {
        let end: usize = next_newline(cs, pos);
        let ghost rest = cs@.skip(pos as int);
        let ghost before = strings_view(r@);
        if end == cs.len() {
            let line: String = string_of(vstd::slice::slice_subrange(cs, pos, end));
            r.push(line);
            pos = end;
            assert(line@ == rest);
            assert(strings_view(r@) == before.push(rest));
            assert(lines_of(rest) == seq![rest]);
            assert(lines_of(cs@.skip(pos as int)) == Seq::<Seq<char>>::empty());
        } else {
            let stop: usize = if end > pos && cs[end - 1] == '\r' {
                end - 1
            } else {
                end
            };
            let line: String = string_of(vstd::slice::slice_subrange(cs, pos, stop));
            r.push(line);
            assert(line@ == strip_cr(rest.take(end - pos)));
            assert(strings_view(r@) == before.push(line@));
            assert(rest.skip(end - pos + 1) == cs@.skip(end + 1));
            assert(lines_of(rest) == seq![line@] + lines_of(cs@.skip(end + 1)));
            assert(before.push(line@) + lines_of(cs@.skip(end + 1)) == before + lines_of(rest));
            pos = end + 1;
        }
    }
    assert(lines_of(cs@.skip(pos as int)) == Seq::<Seq<char>>::empty());
    r
}

/// Lexicographic order, character by character.
pub open spec fn seq_less(a: Seq<char>, b: Seq<char>) -> bool
    decreases b.len(),
{
    if b.len() == 0 {
        false
    } else if a.len() == 0 {
        true
    } else if a[0] != b[0] {
        a[0] < b[0]
    } else {
        seq_less(a.drop_first(), b.drop_first())
    }
}

/// The lexicographic order is total.
pub proof fn lemma_seq_less_total(a: Seq<char>, b: Seq<char>)
    ensures
        a == b || seq_less(a, b) || seq_less(b, a),
        !(seq_less(a, b) && seq_less(b, a)),
        a == b ==> !seq_less(a, b),
    decreases a.len(),
{
    if a.len() == 0 || b.len() == 0 {
        if a.len() == 0 && b.len() == 0 {
            assert(a == b);
        }
    } else if a[0] == b[0] {
        lemma_seq_less_total(a.drop_first(), b.drop_first());
        if a.drop_first() == b.drop_first() {
            assert(a == seq![a[0]] + a.drop_first());
            assert(b == seq![b[0]] + b.drop_first());
        }
    }
}

/// The lexicographic order is transitive.
pub proof fn lemma_seq_less_trans(a: Seq<char>, b: Seq<char>, c: Seq<char>)
    requires
        seq_less(a, b),
        seq_less(b, c),
    ensures
        seq_less(a, c),
    decreases a.len(),
{
    if a.len() > 0 && a[0] == b[0] && b[0] == c[0] {
        lemma_seq_less_trans(a.drop_first(), b.drop_first(), c.drop_first());
    }
}

/// Whether `a` comes before `b` in lexicographic order.
pub fn chars_less(a: &[char], b: &[char]) -> (r: bool)
    ensures
        r == seq_less(a@, b@),
{
    let mut i: usize = 0;
    assert(a@.skip(0) == a@ && b@.skip(0) == b@);
    while i < a.len() && i < b.len()
        invariant
            i <= a@.len(),
            i <= b@.len(),
            seq_less(a@.skip(i as int), b@.skip(i as int)) == seq_less(a@, b@),
        decreases a@.len() - i,
    {
        if a[i] != b[i] {
            return a[i] < b[i];
        }
        assert(a@.skip(i as int).drop_first() == a@.skip(i + 1));
        assert(b@.skip(i as int).drop_first() == b@.skip(i + 1));
        i = i + 1;
    }
    i < b.len()
}

/// Whether a list holds a string.
fn has_string(list: &Vec<String>, s: &String) -> (r: bool)
    ensures
        r == strings_view(list@).contains(s@),
{
    for i in 0..list.len()
        invariant
            forall|k: int| 0 <= k < i ==> strings_view(list@)[k] != s@,
    {
        if list[i] == *s {
            assert(strings_view(list@)[i as int] == s@);
            return true;
        }
        assert(strings_view(list@)[i as int] != s@);
    }
    false
}

/// Whether all strings of `a` are in `b`.
fn all_within(a: &Vec<String>, b: &Vec<String>) -> (r: bool)
    ensures
        r == strings_view(a@).to_set().subset_of(strings_view(b@).to_set()),
{
    for i in 0..a.len()
        invariant
            forall|k: int| 0 <= k < i ==> strings_view(b@).contains(#[trigger] strings_view(a@)[k]),
    {
        if !has_string(b, &a[i]) {
            assert(strings_view(a@)[i as int] == a@[i as int]@);
            assert(strings_view(a@).to_set().contains(a@[i as int]@));
            assert(!strings_view(b@).to_set().contains(a@[i as int]@));
            return false;
        }
        assert(strings_view(a@)[i as int] == a@[i as int]@);
    }
    assert forall|x: Seq<char>| strings_view(a@).to_set().contains(x) implies strings_view(
        b@,
    ).to_set().contains(x) by {
        let k = choose|k: int| 0 <= k < strings_view(a@).len() && strings_view(a@)[k] == x;
        assert(strings_view(b@).contains(strings_view(a@)[k]));
    }
    true
}

/// Whether two lists hold the same set of strings, in whatever order and number.
pub fn same_string_set(a: &Vec<String>, b: &Vec<String>) -> (r: bool)
    ensures
        r == (strings_view(a@).to_set() == strings_view(b@).to_set()),
{
    let r: bool = all_within(a, b) && all_within(b, a);
    proof {
        if r {
            assert(strings_view(a@).to_set() =~= strings_view(b@).to_set());
        }
    }
    r
}

/// Whether two lists hold the same strings.
pub fn same_strings(a: &Vec<String>, b: &Vec<String>) -> (r: bool)
    ensures
        r == (strings_view(a@) == strings_view(b@)),
{
    if a.len() != b.len() {
        assert(strings_view(a@).len() != strings_view(b@).len());
        return false;
    }
    for i in 0..a.len()
        invariant
            a@.len() == b@.len(),
            forall|k: int| 0 <= k < i ==> strings_view(a@)[k] == strings_view(b@)[k],
    {
        if a[i] != b[i] {
            assert(strings_view(a@)[i as int] != strings_view(b@)[i as int]);
            return false;
        }
    }
    assert(strings_view(a@) == strings_view(b@));
    true
}

/// The decimal digit for a number below 10.
pub open spec fn digit(n: nat) -> char {
    (48 + n) as char
}

/// `n` in decimal.
pub open spec fn decimal(n: nat) -> Seq<char>
    decreases n,
{
    if n < 10 {
        seq![digit(n)]
    } else {
        decimal(n / 10).push(digit(n % 10))
    }
}

/// Appends `n` in decimal to `out`.
pub fn push_decimal(out: &mut String, n: usize)
    ensures
        final(out)@ == old(out)@ + decimal(n as nat),
    decreases n,
{
    let ghost start = out@;
    if n >= 10 {
        push_decimal(out, n / 10);
    }
    let d: u8 = (n % 10) as u8;
    out.push((48 + d) as char);
    assert(out@ == start + decimal(n as nat));
}

/// Whether two strings hold the same characters.
pub fn same_text(a: &str, b: &str) -> (r: bool)
    ensures
        r == (a@ == b@),
{
    let ca: Vec<char> = chars_of(a);
    let cb: Vec<char> = chars_of(b);
    if ca.len() != cb.len() {
        return false;
    }
    has_prefix(ca.as_slice(), cb.as_slice())
}

/// Whether `cs` starts with `prefix`.
pub fn has_prefix(cs: &[char], prefix: &[char]) -> (r: bool)
    ensures
        r == prefix@.is_prefix_of(cs@),
        cs@.len() == prefix@.len() ==> (r <==> cs@ == prefix@),
{
    if prefix.len() > cs.len() {
        return false;
    }
    for i in 0..prefix.len()
        invariant
            prefix@.len() <= cs@.len(),
            forall|k: int| 0 <= k < i ==> prefix@[k] == cs@[k],
    {
        if prefix[i] != cs[i] {
            assert(cs@.subrange(0, prefix@.len() as int)[i as int] != prefix@[i as int]);
            return false;
        }
    }
    assert(prefix@ == cs@.subrange(0, prefix@.len() as int));
    proof {
        if cs@.len() == prefix@.len() {
            assert(cs@ == prefix@);
        }
    }
    true
}

/// Appends the words `words` to `out`, with one space between each two.
pub fn push_joined(out: &mut String, words: &Vec<String>)
    ensures
        final(out)@ == old(out)@ + join_words(strings_view(words@)),
{
    let ghost start = out@;
    let ghost ws = strings_view(words@);
    for i in 0..words.len()
        invariant
            ws == strings_view(words@),
            out@ == start + join_words(ws.take(i as int)),
    {
        if i > 0 {
            out.push(' ');
        }
        out.append(words[i].as_str());
        assert(ws.take(i + 1).drop_last() == ws.take(i as int));
        if i == 0 {
            assert(ws.take(1)[0] == ws[0]);
            assert(out@ == start + ws[0]);
        } else {
            assert(out@ == start + (join_words(ws.take(i as int)).push(' ') + ws[i as int]));
        }
    }
    assert(ws.take(ws.len() as int) == ws);
}

} // verus!
