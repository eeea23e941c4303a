//! How large a glob is, piece by piece, and which globs leave nothing open.
use vstd::prelude::*;

verus! {

use vstd::utf8::encode_utf8;
use crate::limits::{closed, glob_fits, scan_of, utf8_width, Place, Scan};

/// A glob is small enough exactly if it takes no more than 10 MiB, 192 bytes for the whole
/// and 48 for two asterisks at its start included, and opens no more than 81 braces at
/// once, both where backslashes escape and where they do not.
pub proof fn lemma_limits(glob: Seq<char>)
    ensures
        glob_fits(glob) <==> forall|escapes: bool|
            {
                let start: nat = if glob.len() >= 2 && glob[0] == '*' && glob[1] == '*' {
                    48
                } else {
                    0
                };
                let scan = #[trigger] scan_of(glob, escapes);
                scan.cost + start + 192 <= 10 * 1024 * 1024 && scan.deepest <= 81
            },
{
    let a = scan_of(glob, true);
    let b = scan_of(glob, false);
}

/// The start of a glob that is small enough is small enough.
pub proof fn lemma_start_fits(a: Seq<char>, b: Seq<char>)
    requires
        glob_fits(a + b),
    ensures
        glob_fits(a),
    decreases b.len(),
{
    if b.len() == 0 {
        assert(a + b == a);
    } else {
        let front = b.drop_last();
        assert((a + b).drop_last() == a + front);
        assert((a + b).last() == b.last());
        assert forall|i: int| 0 <= i < (a + front).len() implies (a + front)[i] == (a + b)[i] by {}
        lemma_start_fits(a, front);
    }
}

// ---------------------------------------------------------------------------
// Pieces
// ---------------------------------------------------------------------------

proof fn lemma_width(c: char)
    ensures
        encode_utf8(seq![c]).len() == utf8_width(c),
{
    vstd::utf8::char_is_scalar(c);
    let s = seq![c];
    assert(s.drop_first() == Seq::<char>::empty());
    assert(encode_utf8(s.drop_first()).len() == 0);
}

proof fn lemma_one_more(pre: Seq<char>, c: char)
    ensures
        (pre + seq![c]).drop_last() == pre,
        (pre + seq![c]).last() == c,
{
    assert((pre + seq![c]).drop_last() =~= pre);
}

/// Nothing of a glob is scanned at its start.
pub proof fn lemma_nothing_scanned(escapes: bool)
    ensures
        scan_of(Seq::empty(), escapes) == (Scan {
            place: Place::Text,
            depth: 0,
            deepest: 0,
            unopened: false,
            members: 0,
            cost: 0,
        }),
{
}

/// An asterisk takes 120 bytes and a question mark 80. Any other character that has no
/// meaning of its own takes 32 for each of its bytes in UTF-8, and 76 inside of braces.
pub proof fn lemma_text_scanned(pre: Seq<char>, c: char, escapes: bool)
    requires
        scan_of(pre, escapes).place == Place::Text,
        !set!['[', '{', '}', ',', '\\'].contains(c),
    ensures
        ({
            let old_scan = scan_of(pre, escapes);
            let each: nat = if old_scan.depth > 0 {
                76
            } else {
                32
            };
            let more: nat = if c == '*' {
                120
            } else if c == '?' {
                80
            } else {
                each * encode_utf8(seq![c]).len()
            };
            scan_of(pre + seq![c], escapes) == (Scan { cost: old_scan.cost + more, ..old_scan })
        }),
{
    lemma_one_more(pre, c);
    lemma_width(c);
    let all = set!['[', '{', '}', ',', '\\'];
    assert(all.contains('[') && all.contains('{') && all.contains('}') && all.contains(',') && all.contains('\\'));
    let old_scan = scan_of(pre, escapes);
    let each: nat = if old_scan.depth > 0 {
        76
    } else {
        32
    };
    assert(old_scan.depth > 0 ==> each * utf8_width(c) == 76 * utf8_width(c));
    assert(old_scan.depth == 0 ==> each * utf8_width(c) == 32 * utf8_width(c));
}

/// Braces count how deep they are, and a pair of them takes 80 bytes. A comma takes 16
/// inside of braces and stands for itself outside of them.
pub proof fn lemma_braces_scanned(pre: Seq<char>, escapes: bool)
    requires
        scan_of(pre, escapes).place == Place::Text,
    ensures
        ({
            let old_scan = scan_of(pre, escapes);
            let opened = scan_of(pre + seq!['{'], escapes);
            let ended = scan_of(pre + seq!['}'], escapes);
            let comma = scan_of(pre + seq![','], escapes);
            &&& opened.place == Place::Text
            &&& opened.depth == old_scan.depth + 1
            &&& opened.deepest >= old_scan.deepest
            &&& opened.deepest >= opened.depth
            &&& opened.deepest == old_scan.deepest || opened.deepest == opened.depth
            &&& opened.unopened == old_scan.unopened
            &&& opened.cost == old_scan.cost + 80
            &&& old_scan.depth > 0 ==> ended == (Scan { depth: (old_scan.depth - 1) as nat, ..old_scan })
            &&& old_scan.depth == 0 ==> ended == (Scan { unopened: true, ..old_scan })
            &&& old_scan.depth > 0 ==> comma == (Scan { cost: old_scan.cost + 16, ..old_scan })
            &&& old_scan.depth == 0 ==> comma == (Scan { cost: old_scan.cost + 32, ..old_scan })
        }),
{
    lemma_one_more(pre, '{');
    lemma_one_more(pre, '}');
    lemma_one_more(pre, ',');
}

/// Where backslashes escape, the next character stands for itself; elsewhere the backslash
/// does.
pub proof fn lemma_backslash_scanned(pre: Seq<char>, c: char)
    ensures
        scan_of(pre, true).place == Place::Text ==> {
            let old_scan = scan_of(pre, true);
            let each: nat = if old_scan.depth > 0 {
                76
            } else {
                32
            };
            &&& scan_of(pre + seq!['\\'], true).place == Place::Escaped
            &&& scan_of(pre + seq!['\\'] + seq![c], true) == (Scan {
                cost: old_scan.cost + each * encode_utf8(seq![c]).len(),
                ..old_scan
            })
        },
        scan_of(pre, false).place == Place::Text ==> {
            let old_scan = scan_of(pre, false);
            let each: nat = if old_scan.depth > 0 {
                76
            } else {
                32
            };
            scan_of(pre + seq!['\\'], false) == (Scan { cost: old_scan.cost + each, ..old_scan })
        },
{
    lemma_one_more(pre, '\\');
    lemma_one_more(pre + seq!['\\'], c);
    lemma_width(c);
    let old_scan = scan_of(pre, true);
    let each: nat = if old_scan.depth > 0 {
        76
    } else {
        32
    };
    assert(old_scan.depth > 0 ==> each * utf8_width(c) == 76 * utf8_width(c));
    assert(old_scan.depth == 0 ==> each * utf8_width(c) == 32 * utf8_width(c));
}

/// What the members of a class take: 8 bytes for each byte of a character, until there are
/// 128 of them.
pub open spec fn members_scanned(body: Seq<char>) -> (nat, nat)
    decreases body.len(),
{
    if body.len() == 0 {
        (0, 0)
    } else {
        let (bytes, cost) = members_scanned(body.drop_last());
        let width = encode_utf8(seq![body.last()]).len();
        (
            bytes + width,
            if bytes < 128 {
                cost + 8 * width
            } else {
                cost
            },
        )
    }
}

proof fn lemma_members(pre: Seq<char>, body: Seq<char>, escapes: bool)
    requires
        body.len() > 0,
        forall|i: int| 0 < i < body.len() ==> #[trigger] body[i] != ']',
        scan_of(pre, escapes).members == 0,
        scan_of(pre, escapes).place == Place::ClassFirst || (scan_of(pre, escapes).place == Place::ClassStart && body[0]
            != '!' && body[0] != '^'),
    ensures
        scan_of(pre + body, escapes) == (Scan {
            place: Place::Class,
            members: members_scanned(body).0,
            cost: scan_of(pre, escapes).cost + members_scanned(body).1,
            ..scan_of(pre, escapes)
        }),
    decreases body.len(),
{
    let front = body.drop_last();
    let c = body.last();
    lemma_width(c);
    assert((pre + body).drop_last() == pre + front);
    assert((pre + body).last() == c);
    if front.len() == 0 {
        assert(pre + front == pre);
        assert(members_scanned(front) == (0nat, 0nat));
    } else {
        assert forall|i: int| 0 < i < front.len() implies #[trigger] front[i] != ']' by {
            assert(body[i] != ']');
        }
        lemma_members(pre, front, escapes);
        assert(body[body.len() - 1] != ']');
    }
}

/// A class takes 72 bytes and what its members take. It goes on to the next closing bracket,
/// which is a member itself if it is the first one, and what it holds has no other meaning.
pub proof fn lemma_class_scanned(pre: Seq<char>, body: Seq<char>, escapes: bool)
    requires
        scan_of(pre, escapes).place == Place::Text,
        body.len() > 0,
        body[0] != '!',
        body[0] != '^',
        forall|i: int| 0 < i < body.len() ==> #[trigger] body[i] != ']',
    ensures
        ({
            let old_scan = scan_of(pre, escapes);
            let class = scan_of(pre + seq!['['] + body + seq![']'], escapes);
            let negated = scan_of(pre + seq!['['] + seq!['!'] + body + seq![']'], escapes);
            let negated_too = scan_of(pre + seq!['['] + seq!['^'] + body + seq![']'], escapes);
            let after = Scan {
                cost: old_scan.cost + 72 + members_scanned(body).1,
                members: members_scanned(body).0,
                ..old_scan
            };
            class == after && negated == after && negated_too == after
        }),
{
    let start = pre + seq!['['];
    lemma_one_more(pre, '[');
    lemma_one_more(start, '!');
    lemma_one_more(start, '^');
    lemma_members(start, body, escapes);
    lemma_members(start + seq!['!'], body, escapes);
    lemma_members(start + seq!['^'], body, escapes);
    lemma_one_more(start + body, ']');
    lemma_one_more(start + seq!['!'] + body, ']');
    lemma_one_more(start + seq!['^'] + body, ']');
}

/// Members in ASCII take 8 bytes each, and no more than 1024 together.
pub proof fn lemma_class_members(body: Seq<char>)
    requires
        forall|i: int| 0 <= i < body.len() ==> #[trigger] body[i] as u32 <= 0x7f,
    ensures
        members_scanned(body).0 == body.len(),
        members_scanned(body).1 == if body.len() <= 128 {
            8 * body.len()
        } else {
            1024
        },
    decreases body.len(),
{
    if body.len() > 0 {
        let front = body.drop_last();
        assert forall|i: int| 0 <= i < front.len() implies #[trigger] front[i] as u32 <= 0x7f by {
            assert(front[i] == body[i]);
        }
        lemma_class_members(front);
        assert(body[body.len() - 1] == body.last());
        lemma_width(body.last());
    }
}

// ---------------------------------------------------------------------------
// Whole globs
// ---------------------------------------------------------------------------

/// How many braces are open at the end of `s`.
pub open spec fn open_braces(s: Seq<char>) -> int {
    s.to_multiset().count('{') - s.to_multiset().count('}')
}

/// At no place more braces were closed than opened.
pub open spec fn never_below(s: Seq<char>) -> bool {
    forall|i: int| 0 <= i <= s.len() ==> open_braces(#[trigger] s.take(i)) >= 0
}

proof fn lemma_open_braces(s: Seq<char>, c: char)
    ensures
        open_braces(s.push(c)) == open_braces(s) + if c == '{' {
            1int
        } else if c == '}' {
            -1int
        } else {
            0int
        },
        open_braces(Seq::<char>::empty()) == 0,
{
    s.to_multiset_ensures();
    Seq::<char>::empty().to_multiset_ensures();
    assert(s.push(c).to_multiset() =~= s.to_multiset().insert(c));
    assert(Seq::<char>::empty().to_multiset().len() == 0);
    assert(!Seq::<char>::empty().contains('{'));
    assert(!Seq::<char>::empty().contains('}'));
}

proof fn lemma_take_push(s: Seq<char>, i: int)
    requires
        s.len() > 0,
        0 <= i <= s.len(),
    ensures
        s == s.drop_last().push(s.last()),
        s.take(s.len() as int) == s,
        i < s.len() ==> s.take(i) == s.drop_last().take(i),
{
}

proof fn lemma_never_below(s: Seq<char>)
    ensures
        s.len() == 0 ==> never_below(s),
        s.len() > 0 ==> (never_below(s) <==> never_below(s.drop_last()) && open_braces(s) >= 0),
{
    if s.len() == 0 {
        assert forall|i: int| 0 <= i <= s.len() implies open_braces(#[trigger] s.take(i)) >= 0 by {
            assert(s.take(i) == Seq::<char>::empty());
            lemma_open_braces(s, 'x');
        }
    } else {
        let front = s.drop_last();
        if never_below(s) {
            assert forall|i: int| 0 <= i <= front.len()
                implies open_braces(#[trigger] front.take(i)) >= 0 by {
                assert(front.take(i) == s.take(i));
            }
            lemma_take_push(s, s.len() as int);
            assert(open_braces(s.take(s.len() as int)) >= 0);
        }
        if never_below(front) && open_braces(s) >= 0 {
            assert forall|i: int| 0 <= i <= s.len() implies open_braces(#[trigger] s.take(i)) >= 0 by {
                lemma_take_push(s, i);
                if i < s.len() {
                    assert(open_braces(front.take(i)) >= 0);
                }
            }
        }
    }
}

proof fn lemma_depths(glob: Seq<char>, escapes: bool)
    requires
        !glob.contains('['),
        !glob.contains('\\'),
    ensures
        scan_of(glob, escapes).place == Place::Text,
        scan_of(glob, escapes).unopened <==> !never_below(glob),
        never_below(glob) ==> scan_of(glob, escapes).depth == open_braces(glob),
    decreases glob.len(),
{
    lemma_never_below(glob);
    if glob.len() > 0 {
        let front = glob.drop_last();
        let c = glob.last();
        assert(glob[glob.len() - 1] == c);
        assert forall|x: char| front.contains(x) implies glob.contains(x) by {
            let i = choose|i: int| 0 <= i < front.len() && front[i] == x;
            assert(glob[i] == x);
        }
        lemma_depths(front, escapes);
        lemma_take_push(glob, 0);
        lemma_open_braces(front, c);
        lemma_never_below(front);
        if never_below(front) {
            lemma_take_push(glob, 0);
        }
    } else {
        assert(glob == Seq::<char>::empty());
        lemma_open_braces(glob, 'x');
    }
}

/// A glob without classes and backslashes leaves nothing open exactly if it has as many
/// closing as opening braces, and at no place more.
pub proof fn lemma_balanced(glob: Seq<char>, escapes: bool)
    requires
        !glob.contains('['),
        !glob.contains('\\'),
    ensures
        closed(scan_of(glob, escapes)) <==> open_braces(glob) == 0 && never_below(glob),
{
    lemma_depths(glob, escapes);
}

/// In such a glob that closes no more braces than it opens, the depth is the largest number
/// of braces that are open at some place.
pub proof fn lemma_deepest(glob: Seq<char>, escapes: bool)
    requires
        !glob.contains('['),
        !glob.contains('\\'),
        never_below(glob),
    ensures
        forall|i: int| 0 <= i <= glob.len()
            ==> open_braces(#[trigger] glob.take(i)) <= scan_of(glob, escapes).deepest,
        exists|i: int| 0 <= i <= glob.len()
            && open_braces(#[trigger] glob.take(i)) == scan_of(glob, escapes).deepest,
    decreases glob.len(),
{
    lemma_depths(glob, escapes);
    let deepest = scan_of(glob, escapes).deepest;
    if glob.len() == 0 {
        lemma_open_braces(glob, 'x');
        assert(glob.take(0) == Seq::<char>::empty());
        assert forall|i: int| 0 <= i <= glob.len()
            implies open_braces(#[trigger] glob.take(i)) <= deepest by {
            assert(glob.take(i) == Seq::<char>::empty());
        }
        assert(open_braces(glob.take(0)) == deepest);
    } else {
        let front = glob.drop_last();
        assert forall|x: char| front.contains(x) implies glob.contains(x) by {
            let i = choose|i: int| 0 <= i < front.len() && front[i] == x;
            assert(glob[i] == x);
        }
        assert(glob[glob.len() - 1] == glob.last());
        lemma_never_below(glob);
        lemma_depths(front, escapes);
        lemma_deepest(front, escapes);
        lemma_take_push(glob, 0);
        lemma_open_braces(front, glob.last());
        assert(front.take(front.len() as int) == front);
        assert(open_braces(front.take(front.len() as int)) <= scan_of(front, escapes).deepest);
        assert forall|i: int| 0 <= i <= glob.len()
            implies open_braces(#[trigger] glob.take(i)) <= deepest by {
            lemma_take_push(glob, i);
            if i < glob.len() {
                assert(open_braces(front.take(i)) <= scan_of(front, escapes).deepest);
            }
        }
        if deepest == scan_of(front, escapes).deepest {
            let i = choose|i: int|
                0 <= i <= front.len()
                    && open_braces(#[trigger] front.take(i)) == scan_of(front, escapes).deepest;
            assert(glob.take(i) == front.take(i));
        } else {
            assert(glob.take(glob.len() as int) == glob);
            assert(open_braces(glob.take(glob.len() as int)) == deepest);
        }
    }
}

proof fn lemma_simple_cost(glob: Seq<char>, escapes: bool)
    requires
        forall|i: int| 0 <= i < glob.len() ==> !set!['[', '{', '}', '\\'].contains(#[trigger] glob[i]),
    ensures
        ({
            let stars = glob.to_multiset().count('*');
            let marks = glob.to_multiset().count('?');
            let scan = scan_of(glob, escapes);
            &&& scan.place == Place::Text
            &&& scan.depth == 0
            &&& scan.deepest == 0
            &&& scan.cost == 120 * stars + 80 * marks + 32 * (encode_utf8(glob).len() - stars - marks)
        }),
    decreases glob.len(),
{
    if glob.len() == 0 {
        glob.to_multiset_ensures();
        assert(!glob.contains('*'));
        assert(!glob.contains('?'));
    } else {
        let front = glob.drop_last();
        let c = glob.last();
        assert forall|i: int| 0 <= i < front.len()
            implies !set!['[', '{', '}', '\\'].contains(#[trigger] front[i]) by {
            assert(front[i] == glob[i]);
        }
        lemma_simple_cost(front, escapes);
        assert(glob[glob.len() - 1] == c);
        let all = set!['[', '{', '}', '\\'];
        assert(all.contains('[') && all.contains('{') && all.contains('}') && all.contains('\\'));
        front.to_multiset_ensures();
        assert(glob == front.push(c));
        assert(glob.to_multiset() =~= front.to_multiset().insert(c));
        lemma_bytes(front, c);
    }
}

proof fn lemma_bytes(s: Seq<char>, c: char)
    ensures
        encode_utf8(s.push(c)).len() == encode_utf8(s).len() + utf8_width(c),
    decreases s.len(),
{
    if s.len() == 0 {
        lemma_width(c);
        assert(s.push(c) == seq![c]);
    } else {
        lemma_bytes(s.drop_first(), c);
        assert(s.push(c).drop_first() == s.drop_first().push(c));
    }
}

/// A glob without braces, classes and backslashes is small enough exactly if it takes no
/// more than 10 MiB, at 120 bytes for each asterisk, 80 for each question mark, 32 for each
/// other byte, 192 for the whole, and 48 for two asterisks at its start.
pub proof fn lemma_simple_globs_fit(glob: Seq<char>)
    requires
        forall|i: int| 0 <= i < glob.len() ==> !set!['[', '{', '}', '\\'].contains(#[trigger] glob[i]),
    ensures
        ({
            let stars = glob.to_multiset().count('*');
            let marks = glob.to_multiset().count('?');
            let start: nat = if glob.len() >= 2 && glob[0] == '*' && glob[1] == '*' {
                48
            } else {
                0
            };
            glob_fits(glob)
                <==> 120 * stars + 80 * marks + 32 * (encode_utf8(glob).len() - stars - marks) + start + 192
                <= 10 * 1024 * 1024
        }),
{
    lemma_simple_cost(glob, true);
    lemma_simple_cost(glob, false);
    lemma_limits(glob);
}

} // verus!
