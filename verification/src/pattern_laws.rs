//! What a pattern means, character by character: where it is anchored, the glob that it
//! stands for, its directory parts, and with which other patterns it may overlap.
use vstd::prelude::*;

verus! {

use crate::order::{certain_name, overlap};
use crate::pattern::{
    certain_prefix, directory_prefix, glob_of, has_wildcard, is_wildcard, prefix_before, special,
    strip_leading, strip_trailing, unanchored, up_to_last_slash, wildcard,
};
use crate::text::{lemma_span, span};

/// A pattern is unanchored exactly if it has no slash, or its only slash ends it and
/// something is before it.
pub proof fn lemma_unanchored(p: Seq<char>)
    ensures
        unanchored(p) <==> forall|i: int| 0 <= i < p.len() && #[trigger] p[i] == '/' ==> 0 < i == p.len() - 1,
{
    let base = strip_trailing(p);
    if unanchored(p) {
        assert forall|i: int| 0 <= i < p.len() && #[trigger] p[i] == '/' implies 0 < i == p.len() - 1 by {
            if i < p.len() - 1 {
                assert(base[i] == p[i]);
                assert(base.contains('/'));
            } else if i < base.len() {
                assert(base == p);
                assert(base.contains('/'));
            }
        }
    }
    if forall|i: int| 0 <= i < p.len() && #[trigger] p[i] == '/' ==> 0 < i == p.len() - 1 {
        if p.len() > 0 && p[0] == '/' {
            assert(0 < 0int);
        }
        if base.contains('/') {
            let i = choose|i: int| 0 <= i < base.len() && base[i] == '/';
            assert(p[i] == '/');
            assert(i == p.len() - 1);
        }
    }
}

/// The glob of a pattern is the pattern without the slash that anchors it, below any
/// directory if it is unanchored, and with all that is inside if it ends with a slash.
pub proof fn lemma_glob(p: Seq<char>)
    ensures
        ({
            let q = if p.len() > 0 && p[0] == '/' {
                p.skip(1)
            } else {
                p
            };
            let inside = if q.len() > 0 && q[q.len() - 1] == '/' {
                q + seq!['*', '*']
            } else {
                q
            };
            if forall|i: int| 0 <= i < p.len() && #[trigger] p[i] == '/' ==> 0 < i == p.len() - 1 {
                glob_of(p) == seq!['*', '*', '/'] + inside
            } else {
                glob_of(p) == inside
            }
        }),
{
    lemma_unanchored(p);
    let q = if p.len() > 0 && p[0] == '/' {
        p.skip(1)
    } else {
        p
    };
    assert(strip_leading(p) == q);
    let head: Seq<char> = seq!['*', '*', '/'];
    let none: Seq<char> = seq![];
    assert(none + q + none == q);
    assert(none + q + seq!['*', '*'] == q + seq!['*', '*']);
    assert(head + q + none == head + q);
    assert(head + q + seq!['*', '*'] == head + (q + seq!['*', '*']));
}

/// A slash at the end of a pattern adds all that is inside: the glob goes on with `/**`,
/// whatever is before it.
pub proof fn lemma_glob_of_directory(p: Seq<char>)
    requires
        p.len() > 0,
        p[p.len() - 1] != '/',
    ensures
        glob_of(p.push('/')) == glob_of(p) + seq!['/', '*', '*'],
{
    let d = p.push('/');
    lemma_glob(p);
    lemma_glob(d);
    lemma_unanchored(p);
    lemma_unanchored(d);
    if unanchored(p) {
        assert forall|i: int| 0 <= i < d.len() && #[trigger] d[i] == '/' implies 0 < i == d.len() - 1 by {
            if i < p.len() {
                assert(p[i] == '/');
            }
        }
    }
    if unanchored(d) {
        assert forall|i: int| 0 <= i < p.len() && #[trigger] p[i] == '/' implies 0 < i == p.len() - 1 by {
            assert(d[i] == '/');
        }
    }
    if p[0] == '/' {
        assert(d.skip(1) == p.skip(1).push('/'));
        if p.skip(1).len() > 0 {
            assert(p.skip(1)[p.skip(1).len() - 1] == p[p.len() - 1]);
        }
    }
    assert(glob_of(d) == glob_of(p) + seq!['/', '*', '*']);
}

/// A slash at the start of a pattern anchors it: what follows is taken from the root on,
/// with all that is inside if it ends with a slash.
pub proof fn lemma_glob_of_rooted(p: Seq<char>)
    ensures
        p.len() == 0 || p[p.len() - 1] != '/' ==> glob_of(seq!['/'] + p) == p,
        p.len() > 0 && p[p.len() - 1] == '/' ==> glob_of(seq!['/'] + p) == p + seq!['*', '*'],
        p.len() > 0 && p[0] != '/' && !unanchored(p) ==> glob_of(seq!['/'] + p) == glob_of(p),
        p.len() > 0 && unanchored(p) ==> glob_of(p) == seq!['*', '*', '/'] + glob_of(seq!['/'] + p),
{
    let r = seq!['/'] + p;
    lemma_glob(r);
    lemma_glob(p);
    lemma_unanchored(r);
    lemma_unanchored(p);
    assert(r[0] == '/');
    assert(r.skip(1) == p);
    if unanchored(p) && p.len() > 0 {
        assert(p[0] != '/');
    }
}

proof fn lemma_up_to(s: Seq<char>)
    ensures
        up_to_last_slash(s).len() <= s.len(),
        up_to_last_slash(s) == s.take(up_to_last_slash(s).len() as int),
        up_to_last_slash(s).len() > 0 ==> s[up_to_last_slash(s).len() - 1] == '/',
        forall|i: int| up_to_last_slash(s).len() <= i < s.len() ==> #[trigger] s[i] != '/',
    decreases s.len(),
{
    if s.len() == 0 || s.last() == '/' {
        assert(s.take(s.len() as int) == s);
    } else {
        let t = s.drop_last();
        lemma_up_to(t);
        let n = up_to_last_slash(s).len() as int;
        assert(t.take(n) == s.take(n));
        assert forall|i: int| n <= i < s.len() implies #[trigger] s[i] != '/' by {
            if i < t.len() {
                assert(t[i] == s[i]);
            }
        }
    }
}

/// `n` characters of `q` are the longest start of it that ends with a slash, or nothing,
/// and holds none of the characters in `stops`.
pub open spec fn longest_directory(q: Seq<char>, n: int, stops: Set<char>) -> bool {
    &&& 0 <= n <= q.len()
    &&& n > 0 ==> q[n - 1] == '/'
    &&& forall|i: int| 0 <= i < n ==> !stops.contains(#[trigger] q[i])
    &&& forall|m: int|
        n < m <= q.len() && #[trigger] q[m - 1] == '/'
            ==> exists|i: int| 0 <= i < m && stops.contains(#[trigger] q[i])
}

proof fn lemma_prefix_before(p: Seq<char>, stop: spec_fn(char) -> bool, stops: Set<char>)
    requires
        forall|c: char| #[trigger] stops.contains(c) <==> stop(c),
    ensures
        longest_directory(strip_leading(p), prefix_before(p, stop).len() as int, stops),
        prefix_before(p, stop) == strip_leading(p).take(prefix_before(p, stop).len() as int),
{
    let q = strip_leading(p);
    let k = span(q, stop);
    lemma_span(q, stop);
    let s = q.take(k);
    lemma_up_to(s);
    let n = prefix_before(p, stop).len() as int;
    assert(s.take(n) == q.take(n));
    if n > 0 {
        assert(s[n - 1] == q[n - 1]);
    }
    assert forall|i: int| 0 <= i < n implies !stops.contains(#[trigger] q[i]) by {
        assert(!stop(q[i]));
    }
    assert forall|m: int| n < m <= q.len() && #[trigger] q[m - 1] == '/' implies exists|i: int|
        0 <= i < m && stops.contains(#[trigger] q[i]) by {
        if m - 1 < k {
            assert(s[m - 1] == q[m - 1]);
        } else {
            assert(k < q.len());
            assert(stops.contains(q[k]));
        }
    }
}

/// The directory part of a pattern, without the slash that anchors it, is its longest start
/// that ends with a slash and has no wildcard.
pub proof fn lemma_directory_prefix(p: Seq<char>)
    ensures
        ({
            let q = if p.len() > 0 && p[0] == '/' {
                p.skip(1)
            } else {
                p
            };
            let d = directory_prefix(p);
            d == q.take(d.len() as int) && longest_directory(q, d.len() as int, set!['*', '?', '['])
        }),
{
    let q = if p.len() > 0 && p[0] == '/' {
        p.skip(1)
    } else {
        p
    };
    assert(strip_leading(p) == q);
    lemma_prefix_before(p, wildcard(), set!['*', '?', '[']);
}

/// The part by which anchored patterns are told apart is the longest start that ends with
/// a slash and has neither wildcards nor alternatives nor escapes.
pub proof fn lemma_certain_prefix(p: Seq<char>)
    ensures
        ({
            let q = if p.len() > 0 && p[0] == '/' {
                p.skip(1)
            } else {
                p
            };
            let d = certain_prefix(p);
            d == q.take(d.len() as int)
                && longest_directory(q, d.len() as int, set!['*', '?', '[', '{', '\\'])
        }),
{
    let q = if p.len() > 0 && p[0] == '/' {
        p.skip(1)
    } else {
        p
    };
    assert(strip_leading(p) == q);
    lemma_prefix_before(p, special(), set!['*', '?', '[', '{', '\\']);
}

/// No character of the pattern has a meaning of its own, and it does not name a directory.
pub open spec fn spells_a_name(p: Seq<char>) -> bool {
    &&& p.len() > 0
    &&& p[p.len() - 1] != '/'
    &&& forall|i: int| 0 <= i < p.len() ==> !set!['*', '?', '[', '{', '\\'].contains(#[trigger] p[i])
}

/// With which patterns a pattern may overlap:
/// - with two asterisks in a row, with any;
/// - an unanchored one with any anchored one;
/// - of two unanchored ones, only different names are told apart;
/// - of two anchored ones, only those of which neither prefix starts the other.
pub proof fn lemma_overlap(a: Seq<char>, b: Seq<char>)
    ensures
        ({
            let stars = (exists|i: int| 0 <= i < a.len() - 1 && #[trigger] a[i] == '*' && a[i + 1] == '*') || (exists|
                i: int,
            |
                0 <= i < b.len() - 1 && #[trigger] b[i] == '*' && b[i + 1] == '*');
            let p = certain_prefix(a);
            let q = certain_prefix(b);
            &&& stars ==> overlap(a, b)
            &&& unanchored(a) != unanchored(b) ==> overlap(a, b)
            &&& !stars && unanchored(a) && unanchored(b) ==> (!overlap(a, b) <==> a != b && spells_a_name(a)
                && spells_a_name(b))
            &&& !stars && !unanchored(a) && !unanchored(b)
                ==> (overlap(a, b) <==> (p.len() <= q.len() && p == q.take(
                p.len() as int,
            )) || (q.len() <= p.len() && q == p.take(q.len() as int)))
        }),
{
    lemma_certain_name(a);
    lemma_certain_name(b);
    let p = certain_prefix(a);
    let q = certain_prefix(b);
    if p.len() <= q.len() {
        assert(q.subrange(0, p.len() as int) == q.take(p.len() as int));
    }
    if q.len() <= p.len() {
        assert(p.subrange(0, q.len() as int) == p.take(q.len() as int));
    }
}

proof fn lemma_certain_name(p: Seq<char>)
    ensures
        certain_name(p) <==> spells_a_name(p),
{
    if certain_name(p) {
        assert forall|i: int| 0 <= i < p.len()
            implies !set!['*', '?', '[', '{', '\\'].contains(#[trigger] p[i]) by {
            assert(!is_wildcard(p[i]));
            assert(p.contains(p[i]));
        }
    }
    if spells_a_name(p) {
        if has_wildcard(p) {
            let i = choose|i: int| 0 <= i < p.len() && is_wildcard(#[trigger] p[i]);
            assert(set!['*', '?', '[', '{', '\\'].contains(p[i]));
        }
        if p.contains('{') {
            let i = choose|i: int| 0 <= i < p.len() && p[i] == '{';
            assert(set!['*', '?', '[', '{', '\\'].contains(p[i]));
        }
        if p.contains('\\') {
            let i = choose|i: int| 0 <= i < p.len() && p[i] == '\\';
            assert(set!['*', '?', '[', '{', '\\'].contains(p[i]));
        }
    }
}

} // verus!
