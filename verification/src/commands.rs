//! What the commands of the program decide, apart from reading and writing.
use vstd::prelude::*;

use crate::ast::File;
use crate::text::same_text;

verus! {

use crate::ast::{file_of, LineView};
use crate::formatter::format_of;
use crate::matcher::{compiled_rules, owners_by, portable, rules_of, CompiledRule};
use crate::ownership_laws::{
    all_portable, compiled_on, lemma_machine_reading, lemma_owners_of_file, lemma_portable_reading,
    lemma_sort_keeps_owners_as_read, lemma_sorted_portable, machine_reading, reads,
};
use crate::roundtrip::{lemma_format_reads_back, lemma_parsed_well_formed};
use crate::sort_laws::lemma_sort_keeps_well_formed;
use crate::sorter::sorted_file;
use crate::text::strings_view;

/// `out` is `text` formatted, and sorted before unless `no_sort` is set.
pub open spec fn formatted(text: Seq<char>, no_sort: bool, out: Seq<char>) -> bool {
    if no_sort {
        out == format_of(file_of(text))
    } else {
        exists|sorted: Seq<Seq<LineView>>| #[trigger]
            sorted_file(file_of(text), sorted) && out == format_of(sorted)
    }
}

/// Parse the source of a file, sort its rules unless `no_sort` is set, and format it.
pub fn format_source(input: &str, no_sort: bool) -> (out: String)
    ensures
        formatted(input@, no_sort, out@),
{
    let mut file: File = crate::ast::parse(input);
    if !no_sort {
        crate::sorter::sort_groups(&mut file);
    }
    crate::formatter::format(&file)
}

/// What is to be done with a formatted file.
#[derive(Debug, Clone, Copy, PartialEq, Eq, Structural)]
pub enum FormatAction {
    /// Report that the input is formatted already.
    Formatted,
    /// Report that the input is not formatted.
    NotFormatted,
    /// Write the output back to the file.
    Write,
    /// Report that there is no file to write to.
    MissingPath,
    /// Print the output.
    Print,
}

/// What is to be done with the output of the formatter.
pub open spec fn action_of(
    input: Seq<char>,
    output: Seq<char>,
    check: bool,
    write_in_place: bool,
    has_path: bool,
) -> FormatAction {
    match (check, write_in_place) {
        (true, _) => if output == input {
            FormatAction::Formatted
        } else {
            FormatAction::NotFormatted
        },
        (false, true) => if has_path {
            FormatAction::Write
        } else {
            FormatAction::MissingPath
        },
        (false, false) => FormatAction::Print,
    }
}

/// A check reports whether the output is the input, and writes nothing; without a check the
/// output is written in place if that is asked for and there is a path, and otherwise
/// printed. Only a failed check and a missing path make the program fail.
pub proof fn lemma_action(input: Seq<char>, output: Seq<char>, write_in_place: bool, has_path: bool)
    ensures
        action_of(input, output, true, write_in_place, has_path) == FormatAction::Formatted
            <==> input == output,
        action_of(input, output, true, write_in_place, has_path) == FormatAction::NotFormatted
            <==> input != output,
        action_of(input, output, false, true, true) == FormatAction::Write,
        action_of(input, output, false, true, false) == FormatAction::MissingPath,
        action_of(input, output, false, false, has_path) == FormatAction::Print,
        status_of(FormatAction::Formatted) == 0,
        status_of(FormatAction::NotFormatted) == 1,
        status_of(FormatAction::Write) == 0,
        status_of(FormatAction::MissingPath) == 2,
        status_of(FormatAction::Print) == 0,
{
}

/// Decide what to do with the output of the formatter. A check comes first, then writing
/// in place, for which there must be a path.
pub fn format_action(
    input: &str,
    output: &str,
    check: bool,
    write_in_place: bool,
    has_path: bool,
) -> (r: FormatAction)
    ensures
        r == if check {
            if output@ == input@ {
                FormatAction::Formatted
            } else {
                FormatAction::NotFormatted
            }
        } else if write_in_place {
            if has_path {
                FormatAction::Write
            } else {
                FormatAction::MissingPath
            }
        } else {
            FormatAction::Print
        },
        r == action_of(input@, output@, check, write_in_place, has_path),
{
    if check {
        if same_text(output, input) {
            FormatAction::Formatted
        } else {
            FormatAction::NotFormatted
        }
    } else if write_in_place {
        if has_path {
            FormatAction::Write
        } else {
            FormatAction::MissingPath
        }
    } else {
        FormatAction::Print
    }
}

/// The status that the program exits with.
pub open spec fn status_of(action: FormatAction) -> int {
    if action == FormatAction::NotFormatted {
        1
    } else if action == FormatAction::MissingPath {
        2
    } else {
        0
    }
}

/// The status that the program exits with.
pub fn exit_status(action: FormatAction) -> (r: i32)
    ensures
        r == match action {
            FormatAction::NotFormatted => 1i32,
            FormatAction::MissingPath => 2i32,
            _ => 0i32,
        },
        r == status_of(action),
{
    match action {
        FormatAction::NotFormatted => 1,
        FormatAction::MissingPath => 2,
        _ => 0,
    }
}

/// What the formatter writes is a file written out: the file that was read, if it is not to
/// be sorted, and otherwise that file sorted.
pub proof fn lemma_formatted(text: Seq<char>, no_sort: bool, out: Seq<char>)
    ensures
        formatted(text, no_sort, out) <==> {
            &&& out == format_of(file_of(out))
            &&& no_sort ==> file_of(out) == file_of(text)
            &&& !no_sort ==> sorted_file(file_of(text), file_of(out))
        },
{
    lemma_parsed_well_formed(text);
    if formatted(text, no_sort, out) {
        if no_sort {
            lemma_format_reads_back(file_of(text));
        } else {
            let sorted = choose|sorted: Seq<Seq<LineView>>| #[trigger]
                sorted_file(file_of(text), sorted) && out == format_of(sorted);
            lemma_sort_keeps_well_formed(file_of(text), sorted);
            lemma_format_reads_back(sorted);
        }
    }
}

/// What the formatter has written passes the check: formatting it again, in the same way,
/// changes nothing.
pub proof fn lemma_formatted_is_stable(text: Seq<char>, no_sort: bool, out: Seq<char>, again: Seq<char>)
    requires
        formatted(text, no_sort, out),
        formatted(out, no_sort, again),
    ensures
        again == out,
{
    if no_sort {
        crate::roundtrip::lemma_format_idempotent(text);
    } else {
        let sorted = choose|sorted: Seq<Seq<LineView>>| #[trigger]
            sorted_file(file_of(text), sorted) && out == format_of(sorted);
        let second = choose|second: Seq<Seq<LineView>>| #[trigger]
            sorted_file(file_of(out), second) && again == format_of(second);
        crate::sort_laws::lemma_sort_format_idempotent(text, sorted, second);
    }
}

/// The formatted text is determined by the text.
pub proof fn lemma_formatted_unique(text: Seq<char>, no_sort: bool, a: Seq<char>, b: Seq<char>)
    requires
        formatted(text, no_sort, a),
        formatted(text, no_sort, b),
    ensures
        a == b,
{
    if !no_sort {
        let p = choose|sorted: Seq<Seq<LineView>>| #[trigger]
            sorted_file(file_of(text), sorted) && a == format_of(sorted);
        let q = choose|sorted: Seq<Seq<LineView>>| #[trigger]
            sorted_file(file_of(text), sorted) && b == format_of(sorted);
        crate::sort_laws::lemma_sorted_file_unique(file_of(text), p, q);
    }
}

/// Sorting and formatting never change who owns a file, as long as a pattern is read the
/// same before and after, as it is on one machine: the rules of the text before and after
/// give the same set of owners for every path.
pub proof fn lemma_formatting_keeps_owners_as_read(
    text: Seq<char>,
    no_sort: bool,
    out: Seq<char>,
    compiled_before: Seq<CompiledRule>,
    compiled_after: Seq<CompiledRule>,
    reading: spec_fn(Seq<char>) -> bool,
    path: Seq<char>,
)
    requires
        formatted(text, no_sort, out),
        compiled_rules(rules_of(file_of(text)), compiled_before),
        compiled_rules(rules_of(file_of(out)), compiled_after),
        reads(reading, rules_of(file_of(text)), compiled_before, path),
        reads(reading, rules_of(file_of(out)), compiled_after, path),
    ensures
        owners_by(compiled_after, path).to_set() == owners_by(compiled_before, path).to_set(),
{
    lemma_parsed_well_formed(text);
    if no_sort {
        lemma_format_reads_back(file_of(text));
        lemma_owners_of_file(reading, rules_of(file_of(text)), compiled_before, path);
        lemma_owners_of_file(reading, rules_of(file_of(text)), compiled_after, path);
    } else {
        let sorted = choose|sorted: Seq<Seq<LineView>>| #[trigger]
            sorted_file(file_of(text), sorted) && out == format_of(sorted);
        lemma_sort_keeps_well_formed(file_of(text), sorted);
        lemma_format_reads_back(sorted);
        lemma_sort_keeps_owners_as_read(
            file_of(text),
            sorted,
            compiled_before,
            compiled_after,
            reading,
            path,
        );
    }
}

/// Sorting and formatting never change who owns a file: compiled from the text before and
/// after on one machine, the rules give the same set of owners for every path.
pub proof fn lemma_formatting_keeps_owners_on_one_machine(
    text: Seq<char>,
    no_sort: bool,
    out: Seq<char>,
    compiled_before: Seq<CompiledRule>,
    compiled_after: Seq<CompiledRule>,
    separates: bool,
    path: Seq<char>,
)
    requires
        formatted(text, no_sort, out),
        compiled_rules(rules_of(file_of(text)), compiled_before),
        compiled_rules(rules_of(file_of(out)), compiled_after),
        compiled_on(rules_of(file_of(text)), compiled_before, separates),
        compiled_on(rules_of(file_of(out)), compiled_after, separates),
    ensures
        owners_by(compiled_after, path).to_set() == owners_by(compiled_before, path).to_set(),
{
    lemma_machine_reading(rules_of(file_of(text)), compiled_before, separates, path);
    lemma_machine_reading(rules_of(file_of(out)), compiled_after, separates, path);
    lemma_formatting_keeps_owners_as_read(
        text,
        no_sort,
        out,
        compiled_before,
        compiled_after,
        machine_reading(separates, path),
        path,
    );
}

/// Sorting and formatting never change who owns a file: compiled from the text before and
/// after, on whatever machines, the rules give the same set of owners for every path.
///
/// Left out are backslashes, which mean different things on different machines; for them
/// see `lemma_formatting_keeps_owners_on_one_machine`.
pub proof fn lemma_formatting_keeps_owners(
    text: Seq<char>,
    no_sort: bool,
    out: Seq<char>,
    compiled_before: Seq<CompiledRule>,
    compiled_after: Seq<CompiledRule>,
    path: Seq<char>,
)
    requires
        formatted(text, no_sort, out),
        compiled_rules(rules_of(file_of(text)), compiled_before),
        compiled_rules(rules_of(file_of(out)), compiled_after),
        all_portable(rules_of(file_of(text))),
        portable(path),
    ensures
        owners_by(compiled_after, path).to_set() == owners_by(compiled_before, path).to_set(),
{
    lemma_parsed_well_formed(text);
    if no_sort {
        lemma_format_reads_back(file_of(text));
    } else {
        let sorted = choose|sorted: Seq<Seq<LineView>>| #[trigger]
            sorted_file(file_of(text), sorted) && out == format_of(sorted);
        lemma_sort_keeps_well_formed(file_of(text), sorted);
        lemma_format_reads_back(sorted);
        lemma_sorted_portable(file_of(text), sorted);
    }
    lemma_portable_reading(rules_of(file_of(text)), compiled_before, path);
    lemma_portable_reading(rules_of(file_of(out)), compiled_after, path);
    lemma_formatting_keeps_owners_as_read(
        text,
        no_sort,
        out,
        compiled_before,
        compiled_after,
        machine_reading(false, path),
        path,
    );
}

/// Formatting without sorting keeps the owners of every path, and the order in which they
/// are listed.
pub proof fn lemma_format_keeps_owner_lists(
    text: Seq<char>,
    out: Seq<char>,
    compiled_before: Seq<CompiledRule>,
    compiled_after: Seq<CompiledRule>,
    reading: spec_fn(Seq<char>) -> bool,
    path: Seq<char>,
)
    requires
        formatted(text, true, out),
        compiled_rules(rules_of(file_of(text)), compiled_before),
        compiled_rules(rules_of(file_of(out)), compiled_after),
        reads(reading, rules_of(file_of(text)), compiled_before, path),
        reads(reading, rules_of(file_of(out)), compiled_after, path),
    ensures
        owners_by(compiled_after, path) == owners_by(compiled_before, path),
{
    lemma_parsed_well_formed(text);
    lemma_format_reads_back(file_of(text));
    lemma_owners_of_file(reading, rules_of(file_of(text)), compiled_before, path);
    lemma_owners_of_file(reading, rules_of(file_of(text)), compiled_after, path);
}

/// Where a CODEOWNERS file can be, relative to the root of the repository, in the order in
/// which they are tried.
pub open spec fn candidates() -> Seq<Seq<char>> {
    seq!["CODEOWNERS"@, ".github/CODEOWNERS"@, "docs/CODEOWNERS"@]
}

/// The three places, in the order in which they are tried.
pub proof fn lemma_candidates()
    ensures
        candidates().len() == 3,
        candidates()[0] == "CODEOWNERS"@,
        candidates()[1] == ".github/CODEOWNERS"@,
        candidates()[2] == "docs/CODEOWNERS"@,
{
}

/// Where a CODEOWNERS file can be, relative to the root of the repository, in the order in
/// which they are tried.
pub fn codeowners_candidates() -> (r: Vec<String>)
    ensures
        strings_view(r@) == candidates(),
{
    let mut r: Vec<String> = Vec::new();
    r.push("CODEOWNERS".to_owned());
    r.push(".github/CODEOWNERS".to_owned());
    r.push("docs/CODEOWNERS".to_owned());
    assert(strings_view(r@) == candidates());
    r
}

/// The index of the first of the places that exist.
pub open spec fn first_place(present: Seq<bool>) -> Option<int>
    decreases present.len(),
{
    if present.len() == 0 {
        None
    } else {
        match first_place(present.drop_last()) {
            Some(k) => Some(k),
            None => if present.last() {
                Some(present.len() - 1)
            } else {
                None
            },
        }
    }
}

/// The first place is one that exists and before which none does; there is none only if no
/// place exists.
pub proof fn lemma_first_place(present: Seq<bool>)
    ensures
        first_place(present) is None ==> forall|i: int| 0 <= i < present.len() ==> !#[trigger] present[i],
        first_place(present) matches Some(k) ==> 0 <= k < present.len() && present[k] && forall|i: int|
            0 <= i < k ==> !#[trigger] present[i],
    decreases present.len(),
{
    if present.len() > 0 {
        let front = present.drop_last();
        lemma_first_place(front);
        assert forall|i: int| 0 <= i < front.len() implies front[i] == #[trigger] present[i] by {}
        assert(present[present.len() - 1] == present.last());
    }
}

/// The index of the first place that exists, where `present` tells for each place, in the
/// order in which they are tried, whether it does.
pub fn first_existing(present: &Vec<bool>) -> (r: Option<usize>)
    ensures
        r is None <==> forall|i: int| 0 <= i < present@.len() ==> !#[trigger] present@[i],
        r matches Some(k) ==> k < present@.len() && present@[k as int] && forall|i: int|
            0 <= i < k ==> !#[trigger] present@[i],
        r is Some <==> first_place(present@) is Some,
        r matches Some(k) ==> first_place(present@) == Some(k as int),
{
    proof {
        lemma_first_place(present@);
    }
    for i in 0..present.len()
        invariant
            forall|k: int| 0 <= k < i ==> !#[trigger] present@[k],
    {
        if present[i] {
            proof {
                lemma_first_place(present@);
            }
            return Some(i);
        }
    }
    None
}

} // verus!
