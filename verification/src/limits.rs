//! How large a glob may be. The regular expressions behind the globs are limited in the
//! memory that they take and in how deep they nest, and a glob beyond these limits cannot
//! be compiled.
use vstd::prelude::*;

verus! {

/// How much a glob may cost. A regular expression may take 10 MiB, of which 192 bytes go
/// to what all of them have in common.
pub const MAX_GLOB_COST: u128 = 10485568;

/// How deep the alternatives of a glob may nest. A regular expression may nest to a depth
/// of 250, alternatives take up to three levels each, and up to five are taken by what
/// stands around and inside them.
pub const MAX_GLOB_DEPTH: usize = 81;

/// The number of bytes that a character takes in UTF-8.
pub open spec fn utf8_width(c: char) -> nat {
    if c as u32 <= 0x7f {
        1
    } else if c as u32 <= 0x7ff {
        2
    } else if c as u32 <= 0xffff {
        3
    } else {
        4
    }
}

/// How many of the bytes in a class are counted: a class is made of at most so many ranges
/// of bytes.
pub const MAX_CLASS_RANGES: usize = 128;

/// Where in a glob a character stands.
#[derive(Debug, Clone, Copy, PartialEq, Eq, Structural)]
pub enum Place {
    /// Outside of classes.
    Text,
    /// After a backslash that escapes it.
    Escaped,
    /// First in a class, where a negation can be.
    ClassStart,
    /// First in a negated class.
    ClassFirst,
    /// Later in a class.
    Class,
}

/// What is known of a glob after some of its characters.
pub struct Scan {
    /// Where the next character stands.
    pub place: Place,
    /// How many braces are open.
    pub depth: nat,
    /// How many were open at once.
    pub deepest: nat,
    /// A brace was closed and none was open.
    pub unopened: bool,
    /// How many bytes the class has so far.
    pub members: nat,
    /// How many bytes the characters add at most to the regular expression.
    pub cost: nat,
}

/// A character that stands for itself takes one state for each of its bytes, and among
/// alternatives up to two states and their links.
pub open spec fn literal_cost(c: char, depth: nat) -> nat {
    if depth > 0 {
        76 * utf8_width(c)
    } else {
        32 * utf8_width(c)
    }
}

/// What a character outside of classes takes: a repetition, a class or its start, the two
/// states around alternatives, one more alternative, or itself.
pub open spec fn text_cost(c: char, depth: nat) -> nat {
    if c == '*' {
        120
    } else if c == '?' {
        80
    } else if c == '[' {
        72
    } else if c == '{' {
        80
    } else if c == '}' {
        0
    } else if c == ',' && depth > 0 {
        16
    } else {
        literal_cost(c, depth)
    }
}

/// A character in a class adds a range for each of its bytes, as long as there are others.
pub open spec fn member_cost(c: char, members: nat) -> nat {
    if members < MAX_CLASS_RANGES {
        8 * utf8_width(c)
    } else {
        0
    }
}

/// The scan after one more character in a class.
pub open spec fn with_member(scan: Scan, c: char) -> Scan {
    Scan {
        place: Place::Class,
        members: scan.members + utf8_width(c),
        cost: scan.cost + member_cost(c, scan.members),
        ..scan
    }
}

/// The scan after one more character.
pub open spec fn scan_after(scan: Scan, c: char, escapes: bool) -> Scan {
    match scan.place {
        Place::Text => {
            if c == '\\' && escapes {
                Scan { place: Place::Escaped, ..scan }
            } else {
                let next = Scan { cost: scan.cost + text_cost(c, scan.depth), ..scan };
                if c == '[' {
                    Scan { place: Place::ClassStart, members: 0, ..next }
                } else if c == '{' {
                    Scan {
                        depth: scan.depth + 1,
                        deepest: if scan.depth + 1 > scan.deepest {
                            scan.depth + 1
                        } else {
                            scan.deepest
                        },
                        ..next
                    }
                } else if c == '}' && scan.depth > 0 {
                    Scan { depth: (scan.depth - 1) as nat, ..next }
                } else if c == '}' {
                    Scan { unopened: true, ..next }
                } else {
                    next
                }
            }
        },
        Place::Escaped => Scan {
            place: Place::Text,
            cost: scan.cost + literal_cost(c, scan.depth),
            ..scan
        },
        Place::ClassStart => if c == '!' || c == '^' {
            Scan { place: Place::ClassFirst, ..scan }
        } else {
            with_member(scan, c)
        },
        Place::ClassFirst => with_member(scan, c),
        Place::Class => if c == ']' {
            Scan { place: Place::Text, ..scan }
        } else {
            with_member(scan, c)
        },
    }
}

/// The scan of a glob. Whether a backslash escapes the next character is up to the
/// machine.
pub open spec fn scan_of(glob: Seq<char>, escapes: bool) -> Scan
    decreases glob.len(),
{
    if glob.len() == 0 {
        Scan { place: Place::Text, depth: 0, deepest: 0, unopened: false, members: 0, cost: 0 }
    } else {
        scan_after(scan_of(glob.drop_last(), escapes), glob.last(), escapes)
    }
}

/// Every brace has its counterpart, and nothing is left open at the end.
pub open spec fn closed(scan: Scan) -> bool {
    scan.place == Place::Text && scan.depth == 0 && !scan.unopened
}

/// What a choice of depths at the start of a glob takes beyond its characters.
pub open spec fn start_cost(glob: Seq<char>) -> nat {
    if glob.len() >= 2 && glob[0] == '*' && glob[1] == '*' {
        48
    } else {
        0
    }
}

/// The glob is small enough to be compiled, if backslashes escape or if they do not.
pub open spec fn fits_if(glob: Seq<char>, escapes: bool) -> bool {
    &&& scan_of(glob, escapes).cost + start_cost(glob) <= MAX_GLOB_COST
    &&& scan_of(glob, escapes).deepest <= MAX_GLOB_DEPTH
}

/// The glob is small enough to be compiled.
pub open spec fn glob_fits(glob: Seq<char>) -> bool {
    fits_if(glob, true) && fits_if(glob, false)
}

fn width_of(c: char) -> (r: usize)
    ensures
        r as nat == utf8_width(c),
        1 <= r <= 4,
{
    let n: u32 = c as u32;
    if n <= 0x7f {
        1
    } else if n <= 0x7ff {
        2
    } else if n <= 0xffff {
        3
    } else {
        4
    }
}

fn cost_of_literal(c: char, depth: usize) -> (r: u128)
    ensures
        r as nat == literal_cost(c, depth as nat),
        r <= 304,
{
    let width: u128 = width_of(c) as u128;
    if depth > 0 {
        76 * width
    } else {
        32 * width
    }
}

fn cost_of_text(c: char, depth: usize) -> (r: u128)
    ensures
        r as nat == text_cost(c, depth as nat),
        r <= 304,
{
    if c == '*' {
        120
    } else if c == '?' {
        80
    } else if c == '[' {
        72
    } else if c == '{' {
        80
    } else if c == '}' {
        0
    } else if c == ',' && depth > 0 {
        16
    } else {
        cost_of_literal(c, depth)
    }
}

fn fits_where(cs: &[char], escapes: bool) -> (r: bool)
    ensures
        r == fits_if(cs@, escapes),
{
    let mut place: Place = Place::Text;
    let mut depth: usize = 0;
    let mut deepest: usize = 0;
    let mut members: u128 = 0;
    let mut cost: u128 = 0;
    for i in 0..cs.len()
        invariant
            depth <= i,
            deepest <= i,
            members <= 4 * i,
            cost <= 304 * i,
            place == scan_of(cs@.take(i as int), escapes).place,
            depth as nat == scan_of(cs@.take(i as int), escapes).depth,
            deepest as nat == scan_of(cs@.take(i as int), escapes).deepest,
            members as nat == scan_of(cs@.take(i as int), escapes).members,
            cost as nat == scan_of(cs@.take(i as int), escapes).cost,
    {
        assert(cs@.take(i + 1).drop_last() == cs@.take(i as int));
        let c: char = cs[i];
        let width: usize = width_of(c);
        let member: u128 = if members < MAX_CLASS_RANGES as u128 {
            8 * width as u128
        } else {
            0
        };
        match place {
            Place::Text => {
                if c == '\\' && escapes {
                    place = Place::Escaped;
                } else {
                    cost = cost + cost_of_text(c, depth);
                    if c == '[' {
                        place = Place::ClassStart;
                        members = 0;
                    } else if c == '{' {
                        depth = depth + 1;
                        if depth > deepest {
                            deepest = depth;
                        }
                    } else if c == '}' && depth > 0 {
                        depth = depth - 1;
                    }
                }
            },
            Place::Escaped => {
                place = Place::Text;
                cost = cost + cost_of_literal(c, depth);
            },
            Place::ClassStart => {
                if c == '!' || c == '^' {
                    place = Place::ClassFirst;
                } else {
                    place = Place::Class;
                    members = members + width as u128;
                    cost = cost + member;
                }
            },
            Place::ClassFirst => {
                place = Place::Class;
                members = members + width as u128;
                cost = cost + member;
            },
            Place::Class => {
                if c == ']' {
                    place = Place::Text;
                } else {
                    members = members + width as u128;
                    cost = cost + member;
                }
            },
        }
    }
    assert(cs@.take(cs@.len() as int) == cs@);
    if cs.len() >= 2 && cs[0] == '*' && cs[1] == '*' {
        cost = cost + 48;
    }
    cost <= MAX_GLOB_COST && deepest <= MAX_GLOB_DEPTH
}

/// Whether a glob is small enough to be compiled.
pub fn fits(glob: &[char]) -> (r: bool)
    ensures
        r == glob_fits(glob@),
{
    fits_where(glob, true) && fits_where(glob, false)
}

/// A glob without braces and classes leaves nothing open, unless a backslash is its last
/// character.
pub proof fn lemma_nothing_open(glob: Seq<char>, escapes: bool)
    requires
        !glob.contains('{'),
        !glob.contains('}'),
        !glob.contains('['),
    ensures
        scan_of(glob, escapes).depth == 0,
        !scan_of(glob, escapes).unopened,
        scan_of(glob, escapes).place == Place::Text || scan_of(glob, escapes).place == Place::Escaped,
        !(glob.len() > 0 && glob.last() == '\\') ==> closed(scan_of(glob, escapes)),
    decreases glob.len(),
{
    if glob.len() > 0 {
        let front = glob.drop_last();
        assert(glob.contains(glob.last()));
        assert forall|c: char| front.contains(c) implies glob.contains(c) by {
            let i = choose|i: int| 0 <= i < front.len() && front[i] == c;
            assert(glob[i] == c);
        }
        lemma_nothing_open(front, escapes);
    }
}

} // verus!
