//! What a CODEOWNERS pattern is made of: slashes that anchor it, wildcards, and the
//! glob that it stands for.
use vstd::prelude::*;

verus! {

use crate::text::span;

/// The test that `span` stops at: a character that starts a wildcard.
pub open spec fn wildcard() -> spec_fn(char) -> bool {
    |c: char| is_wildcard(c)
}

pub open spec fn is_wildcard(c: char) -> bool {
    c == '*' || c == '?' || c == '['
}

/// The test that `span` stops at: a character that starts a wildcard or alternatives, or
/// that escapes another.
pub open spec fn special() -> spec_fn(char) -> bool {
    |c: char| is_wildcard(c) || c == '{' || c == '\\'
}

pub open spec fn has_wildcard(p: Seq<char>) -> bool {
    exists|i: int| 0 <= i < p.len() && is_wildcard(#[trigger] p[i])
}

pub open spec fn starts_with(p: Seq<char>, c: char) -> bool {
    p.len() > 0 && p[0] == c
}

pub open spec fn ends_with(p: Seq<char>, c: char) -> bool {
    p.len() > 0 && p.last() == c
}

/// `p` without the slash that it starts with.
pub open spec fn strip_leading(p: Seq<char>) -> Seq<char> {
    if starts_with(p, '/') {
        p.drop_first()
    } else {
        p
    }
}

/// `p` without the slash that it ends with.
pub open spec fn strip_trailing(p: Seq<char>) -> Seq<char> {
    if ends_with(p, '/') {
        p.drop_last()
    } else {
        p
    }
}

/// A pattern is "unanchored" if it has no `/` in the beginning or middle.
/// Per gitignore rules, such patterns match files anywhere in the tree.
pub open spec fn unanchored(p: Seq<char>) -> bool {
    !starts_with(p, '/') && !strip_trailing(p).contains('/')
}

/// The part of a pattern up to the last `/` before the first character that `stop` picks,
/// without a leading `/`.
pub open spec fn prefix_before(p: Seq<char>, stop: spec_fn(char) -> bool) -> Seq<char> {
    let q = strip_leading(p);
    up_to_last_slash(q.take(span(q, stop)))
}

/// The directory part of an anchored pattern before its first wildcard.
pub open spec fn directory_prefix(p: Seq<char>) -> Seq<char> {
    prefix_before(p, wildcard())
}

/// The directory part of an anchored pattern in which every character stands for itself:
/// all files that it matches are below it.
pub open spec fn certain_prefix(p: Seq<char>) -> Seq<char> {
    prefix_before(p, special())
}

/// `s` up to and including its last slash.
pub open spec fn up_to_last_slash(s: Seq<char>) -> Seq<char>
    decreases s.len(),
{
    if s.len() == 0 || s.last() == '/' {
        s
    } else {
        up_to_last_slash(s.drop_last())
    }
}

/// A pattern that names one file name: no wildcards, and no directory.
pub open spec fn bare_name(p: Seq<char>) -> bool {
    p.len() > 0 && !has_wildcard(p) && !ends_with(p, '/')
}

/// Free of alternatives and escapes.
pub open spec fn plain(p: Seq<char>) -> bool {
    !p.contains('{') && !p.contains('\\')
}

/// Two asterisks in a row.
pub open spec fn has_double_star(p: Seq<char>) -> bool {
    exists|i: int| 0 <= i < p.len() - 1 && #[trigger] p[i] == '*' && p[i + 1] == '*'
}

/// The glob that a pattern stands for, relative to the root of the repository:
/// an unanchored pattern matches at any depth, and one that ends with `/` matches
/// all that is inside the directory.
pub open spec fn glob_of(p: Seq<char>) -> Seq<char> {
    let q = strip_leading(p);
    let head: Seq<char> = if unanchored(p) {
        seq!['*', '*', '/']
    } else {
        seq![]
    };
    let tail: Seq<char> = if ends_with(q, '/') {
        seq!['*', '*']
    } else {
        seq![]
    };
    head + q + tail
}

} // verus!
